use blobsync::account::{Account, Shared};

fn sample() -> Account {
    Account::new(
        "store".to_string(),
        "C:/data/store".to_string(),
        "https://store.blob.core.windows.net/".to_string(),
        "sv=1&sig=2".to_string(),
    )
}

#[test]
fn service_url_joins_endpoint_and_signature() {
    assert_eq!(sample().service_url(), "https://store.blob.core.windows.net/?sv=1&sig=2");
}

#[test]
fn service_url_parses_for_valid_endpoint() {
    let url = sample().parse_service_url().expect("valid url");
    assert_eq!(url.host_str(), Some("store.blob.core.windows.net"));
    assert_eq!(url.query(), Some("sv=1&sig=2"));
}

#[test]
fn service_url_rejected_for_relative_endpoint() {
    let account = Account::new(String::new(), String::new(), "no scheme".to_string(), "x".to_string());
    assert!(account.parse_service_url().is_none());
}

#[test]
fn shared_keeps_accounts() {
    let shared = Shared::new(vec![sample()]);
    assert_eq!(shared.accounts.len(), 1);
    assert_eq!(shared.accounts[0].name, "store");
    assert_eq!(shared.accounts[0].local_path(), "C:/data/store");
}
