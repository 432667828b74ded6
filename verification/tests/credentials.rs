use blobsync::credentials::{
    account_name, connection_fields, get_storage_accounts, parse_connection_string, Account,
};
use blobsync::statics::parse_sas;

const TYPICAL: &str = "BlobEndpoint=https://mystore.blob.core.windows.net/;SharedAccessSignature=sv=2022-11-02&ss=b&sig=abc%3D";

#[test]
fn parses_typical_connection_string() {
    let account = parse_connection_string(TYPICAL.to_string());
    assert_eq!(account.name, "mystore");
    assert_eq!(account.blob_endpoint(), "https://mystore.blob.core.windows.net/");
    assert_eq!(account.sas(), "sv=2022-11-02&ss=b&sig=abc%3D");
}

#[test]
fn value_keeps_equal_signs_after_the_first() {
    let (endpoint, sas) = connection_fields("SharedAccessSignature=a=b=c;BlobEndpoint=x");
    assert_eq!(endpoint.as_deref(), Some("x"));
    assert_eq!(sas.as_deref(), Some("a=b=c"));
}

#[test]
fn keys_and_values_are_trimmed() {
    let (endpoint, sas) =
        connection_fields("  BlobEndpoint = https://a.b/ ;\tSharedAccessSignature=\u{3000}tok \n");
    assert_eq!(endpoint.as_deref(), Some("https://a.b/"));
    assert_eq!(sas.as_deref(), Some("tok"));
}

#[test]
fn later_part_overrides_earlier() {
    let (endpoint, _) = connection_fields("BlobEndpoint=one;BlobEndpoint=two");
    assert_eq!(endpoint.as_deref(), Some("two"));
}

#[test]
fn unknown_keys_and_parts_without_equal_sign_are_skipped() {
    let (endpoint, sas) =
        connection_fields("DefaultEndpointsProtocol=https;junk;;BlobEndpoint=e;blobendpoint=f");
    assert_eq!(endpoint.as_deref(), Some("e"));
    assert_eq!(sas, None);
}

#[test]
fn missing_field_gives_no_account() {
    assert!(Account::from_connection_string("BlobEndpoint=https://a.b/").is_none());
    assert!(Account::from_connection_string("SharedAccessSignature=x").is_none());
    assert!(Account::from_connection_string("").is_none());
    assert!(Account::from_connection_string("BlobEndpoint=e;SharedAccessSignature=s").is_some());
}

#[test]
fn account_name_is_first_label_of_endpoint() {
    assert_eq!(account_name("https://mystore.blob.core.windows.net/"), "mystore");
    assert_eq!(account_name("https://https://twice.example"), "twice");
    assert_eq!(account_name("http://plain.example"), "http://plain");
    assert_eq!(account_name("nodots"), "nodots");
    assert_eq!(account_name(""), "");
    assert_eq!(account_name("https://"), "");
}

#[test]
fn storage_accounts_one_per_line() {
    let content = "BlobEndpoint=https://one.blob/;SharedAccessSignature=s1\r\nBlobEndpoint=https://two.blob/;SharedAccessSignature=s2\n";
    let accounts = get_storage_accounts(content).unwrap();
    assert_eq!(accounts.len(), 2);
    assert_eq!(accounts[0].name, "one");
    assert_eq!(accounts[0].sas(), "s1");
    assert_eq!(accounts[1].name, "two");
    assert_eq!(accounts[1].blob_endpoint(), "https://two.blob/");
}

#[test]
fn storage_accounts_of_empty_file() {
    assert_eq!(get_storage_accounts("").unwrap().len(), 0);
}

#[test]
fn parse_sas_reads_endpoint_and_signature() {
    let account = parse_sas(" BlobEndpoint=https://e.blob/;SharedAccessSignature=sig=1 \n".to_string());
    assert_eq!(account.endpoint, "https://e.blob/");
    assert_eq!(account.sas, "sig=1");
}
