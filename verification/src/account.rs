//! The storage accounts that the application offers on its first screen.

use vstd::prelude::*;
use azure_core::http::Url;

verus! {

#[verifier::external_type_specification]
#[verifier::external_body]
pub struct ExUrl(Url);

/// What `Url::parse` returns for a text: it depends on the text alone.
pub uninterp spec fn parsed_url(input: Seq<char>) -> Option<Url>;

/// `Url::parse` of the `url` crate (re-exported by `azure_core::http`):
/// parses an absolute URL. Its result, or that it failed, is named by
/// `parsed_url` of the text; what the parsed URL holds is not stated.
#[verifier::external_body]
fn parse_url(input: &str) -> (r: Option<Url>)
    ensures
        r == parsed_url(input@),
{
    Url::parse(input).ok()
}

/// What an account holds.
pub struct AccountView {
    pub name: Seq<char>,
    pub local_path: Seq<char>,
    pub blob_endpoint: Seq<char>,
    pub sas: Seq<char>,
}

/// A storage account: its name, the local folder that mirrors it, and how
/// to reach it.
#[derive(Clone)]
pub struct Account {
    pub name: String,
    pub local_path: String,
    blob_endpoint: String,
    sas: String,
}

impl View for Account {
    type V = AccountView;

    closed spec fn view(&self) -> AccountView {
        AccountView {
            name: self.name@,
            local_path: self.local_path@,
            blob_endpoint: self.blob_endpoint@,
            sas: self.sas@,
        }
    }
}

/// The service address of an account: its endpoint, `?`, and its signature.
pub open spec fn service_url_of(a: AccountView) -> Seq<char> {
    a.blob_endpoint + "?"@ + a.sas
}

impl Account {
    pub fn new(name: String, local_path: String, blob_endpoint: String, sas: String) -> (r: Account)
        ensures
            r@ == (AccountView {
                name: name@,
                local_path: local_path@,
                blob_endpoint: blob_endpoint@,
                sas: sas@,
            }),
    {
        Account { name, local_path, blob_endpoint, sas }
    }

    pub fn name(&self) -> (r: &String)
        ensures
            r@ == self@.name,
    {
        &self.name
    }

    pub fn local_path(&self) -> (r: &String)
        ensures
            r@ == self@.local_path,
    {
        &self.local_path
    }

    pub fn blob_endpoint(&self) -> (r: &String)
        ensures
            r@ == self@.blob_endpoint,
    {
        &self.blob_endpoint
    }

    pub fn sas(&self) -> (r: &String)
        ensures
            r@ == self@.sas,
    {
        &self.sas
    }

    /// The text of the service address: `<endpoint>?<signature>`.
    pub fn service_url(&self) -> (r: String)
        ensures
            r@ == service_url_of(self@),
    {
        let mut url = self.blob_endpoint.clone();
        url.append("?");
        url.append(self.sas.as_str());
        url
    }

    /// The service address parsed as a URL, or `None` where it is not one.
    pub fn parse_service_url(&self) -> (r: Option<Url>)
        ensures
            r == parsed_url(service_url_of(self@)),
    {
        let url = self.service_url();
        parse_url(url.as_str())
    }
}

/// What every screen shares: the configured storage accounts.
pub struct Shared {
    pub accounts: Vec<Account>,
}

impl Shared {
    pub fn new(accounts: Vec<Account>) -> (r: Shared)
        ensures
            r.accounts@ == accounts@,
    {
        Shared { accounts }
    }
}

} // verus!
