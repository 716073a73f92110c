use wallet_service::errors::WalletError;
use wallet_service::service::WalletService;

fn service_with_wallet(name: &str) -> WalletService {
    let mut s = WalletService::new();
    s.create("pool1", "default", name, "{}", "secret").unwrap();
    s
}

#[test]
fn create_open_set_get_returns_value() {
    let mut s = service_with_wallet("w1");
    let h = s.open("w1", "secret").unwrap();
    s.set(h, "key1", "value1").unwrap();
    assert_eq!(s.get(h, "key1").unwrap(), "value1");
}

#[test]
fn create_unknown_type_fails_and_leaves_nothing() {
    let mut s = WalletService::new();
    match s.create("pool1", "nosuchtype", "w1", "{}", "secret") {
        Err(WalletError::UnknownType(t)) => assert_eq!(t, "nosuchtype"),
        other => panic!("expected UnknownType, got Ok={}", other.is_ok()),
    }
    // nothing was created: the name is still free to open-fail as NotFound
    assert!(matches!(s.open("w1", "secret"), Err(WalletError::NotFound(_))));
}

#[test]
fn create_twice_fails_already_exists_and_keeps_first() {
    let mut s = service_with_wallet("w1");
    let h = s.open("w1", "secret").unwrap();
    s.set(h, "k", "first").unwrap();
    match s.create("pool2", "default", "w1", "{\"other\":1}", "other_secret") {
        Err(WalletError::AlreadyExists(n)) => assert_eq!(n, "w1"),
        other => panic!("expected AlreadyExists, got Ok={}", other.is_ok()),
    }
    // the first wallet's data and credentials are untouched
    assert_eq!(s.get(h, "k").unwrap(), "first");
    let h2 = s.open("w1", "secret").unwrap();
    assert_eq!(s.get(h2, "k").unwrap(), "first");
}

#[test]
fn racing_creates_have_one_winner() {
    let mut s = WalletService::new();
    let first = s.create("pool1", "default", "w1", "{}", "a");
    let second = s.create("pool1", "default", "w1", "{}", "b");
    assert!(first.is_ok());
    assert!(matches!(second, Err(WalletError::AlreadyExists(_))));
    // the winner's wallet is intact and opens with the winner's credentials
    assert!(s.open("w1", "a").is_ok());
}

#[test]
fn delete_without_descriptor_fails_not_found() {
    let mut s = WalletService::new();
    match s.delete("ghost") {
        Err(WalletError::NotFound(n)) => assert_eq!(n, "ghost"),
        other => panic!("expected NotFound, got Ok={}", other.is_ok()),
    }
}

#[test]
fn delete_then_open_fails_not_found() {
    let mut s = service_with_wallet("w1");
    s.delete("w1").unwrap();
    assert!(matches!(s.open("w1", "secret"), Err(WalletError::NotFound(_))));
}

#[test]
fn delete_with_open_handle_fails_resource_busy() {
    let mut s = service_with_wallet("w1");
    let h = s.open("w1", "secret").unwrap();
    assert!(matches!(s.delete("w1"), Err(WalletError::ResourceBusy(_))));
    s.close(h).unwrap();
    assert!(s.delete("w1").is_ok());
}

#[test]
fn closed_handle_is_invalid_for_get_set_and_close() {
    let mut s = service_with_wallet("w1");
    let h = s.open("w1", "secret").unwrap();
    s.set(h, "k", "v").unwrap();
    s.close(h).unwrap();
    assert!(matches!(s.get(h, "k"), Err(WalletError::InvalidHandle(b)) if b == h));
    assert!(matches!(s.set(h, "k", "v2"), Err(WalletError::InvalidHandle(b)) if b == h));
    assert!(matches!(s.close(h), Err(WalletError::InvalidHandle(b)) if b == h));
}

#[test]
fn two_opens_get_distinct_independent_handles() {
    let mut s = service_with_wallet("w1");
    let h1 = s.open("w1", "secret").unwrap();
    let h2 = s.open("w1", "secret").unwrap();
    assert_ne!(h1, h2);
    s.set(h1, "k1", "v1").unwrap();
    s.set(h2, "k2", "v2").unwrap();
    assert_eq!(s.get(h1, "k2").unwrap(), "v2");
    assert_eq!(s.get(h2, "k1").unwrap(), "v1");
    s.close(h1).unwrap();
    // the other session is still live after one closes
    assert_eq!(s.get(h2, "k1").unwrap(), "v1");
}

#[test]
fn closed_handle_is_never_reissued() {
    let mut s = service_with_wallet("w1");
    let h1 = s.open("w1", "secret").unwrap();
    s.close(h1).unwrap();
    let h2 = s.open("w1", "secret").unwrap();
    assert_ne!(h1, h2);
}

#[test]
fn open_with_wrong_credentials_fails_authentication() {
    let mut s = service_with_wallet("w1");
    assert!(matches!(
        s.open("w1", "wrong"),
        Err(WalletError::AuthenticationFailed(_))
    ));
}

#[test]
fn get_missing_key_fails_not_found() {
    let mut s = service_with_wallet("w1");
    let h = s.open("w1", "secret").unwrap();
    assert!(matches!(s.get(h, "absent"), Err(WalletError::NotFound(_))));
}

#[test]
fn set_replaces_earlier_value_and_keeps_other_keys() {
    let mut s = service_with_wallet("w1");
    let h = s.open("w1", "secret").unwrap();
    s.set(h, "k1", "v1").unwrap();
    s.set(h, "k2", "v2").unwrap();
    s.set(h, "k1", "v1b").unwrap();
    assert_eq!(s.get(h, "k1").unwrap(), "v1b");
    assert_eq!(s.get(h, "k2").unwrap(), "v2");
}

#[test]
fn register_type_then_create_with_it() {
    let mut s = WalletService::new();
    s.resiter_type("plugin").unwrap();
    assert!(s.create("pool1", "plugin", "w1", "{}", "secret").is_ok());
}

#[test]
fn register_duplicate_type_fails() {
    let mut s = WalletService::new();
    assert!(matches!(
        s.resiter_type("default"),
        Err(WalletError::AlreadyExists(_))
    ));
    s.resiter_type("plugin").unwrap();
    assert!(matches!(
        s.resiter_type("plugin"),
        Err(WalletError::AlreadyExists(_))
    ));
}

#[test]
fn wallets_are_isolated_by_name() {
    let mut s = service_with_wallet("w1");
    s.create("pool1", "default", "w2", "{}", "secret2").unwrap();
    let h1 = s.open("w1", "secret").unwrap();
    let h2 = s.open("w2", "secret2").unwrap();
    s.set(h1, "k", "in_w1").unwrap();
    s.set(h2, "k", "in_w2").unwrap();
    assert_eq!(s.get(h1, "k").unwrap(), "in_w1");
    assert_eq!(s.get(h2, "k").unwrap(), "in_w2");
    // deleting one wallet leaves the other's data alone
    s.close(h1).unwrap();
    s.delete("w1").unwrap();
    assert_eq!(s.get(h2, "k").unwrap(), "in_w2");
}

#[test]
fn empty_strings_are_legal_wallet_inputs() {
    let mut s = WalletService::new();
    s.create("", "default", "", "", "").unwrap();
    let h = s.open("", "").unwrap();
    s.set(h, "", "").unwrap();
    assert_eq!(s.get(h, "").unwrap(), "");
    s.close(h).unwrap();
    s.delete("").unwrap();
}

#[test]
fn unicode_names_keys_and_values_round_trip() {
    let mut s = WalletService::new();
    s.create("пул", "default", "кошелёк", "{}", "ключ🔑").unwrap();
    let h = s.open("кошелёк", "ключ🔑").unwrap();
    s.set(h, "ключ", "значение✨").unwrap();
    assert_eq!(s.get(h, "ключ").unwrap(), "значение✨");
}

#[test]
fn error_kind_names() {
    assert_eq!(
        WalletError::UnknownType(String::from("t")).kind_name(),
        "unknown type"
    );
    assert_eq!(
        WalletError::AlreadyExists(String::from("w")).kind_name(),
        "already exists"
    );
    assert_eq!(WalletError::InvalidHandle(7).kind_name(), "invalid handle");
    assert_eq!(
        WalletError::Corrupted(String::from("d")).kind_name(),
        "corrupted"
    );
    assert_eq!(
        WalletError::NotFound(String::from("n")).kind_name(),
        "not found"
    );
    assert_eq!(
        WalletError::AuthenticationFailed(String::from("w")).kind_name(),
        "authentication failed"
    );
    assert_eq!(
        WalletError::IOError(String::from("e")).kind_name(),
        "io error"
    );
    assert_eq!(
        WalletError::BackendError(String::from("b")).kind_name(),
        "backend error"
    );
    assert_eq!(
        WalletError::ResourceBusy(String::from("w")).kind_name(),
        "resource busy"
    );
}
