//! Connection strings of the form
//! `BlobEndpoint=https://<account>.blob.core.windows.net/;SharedAccessSignature=<token>`,
//! one per line of a credentials file.

use vstd::prelude::*;
use vstd::string::*;
use crate::text::{
    chars_of, find_char, find_char_in, law_lines_count, lemma_find_char, lines, newline_count,
    range_equals, split_char, strip_carriage_return, trim, trim_range, trim_start_matches,
};

verus! {

/// The endpoint and the shared access signature found so far.
pub type Fields = (Option<Seq<char>>, Option<Seq<char>>);

/// One `key=value` part of a connection string: a part without `=` is
/// skipped, a known key (trimmed) sets its field to the trimmed value, any
/// other key is ignored. A later part overrides an earlier one.
pub open spec fn field_update(acc: Fields, part: Seq<char>) -> Fields {
    let i = find_char(part, '=');
    if 0 <= i < part.len() {
        let key = trim(part.take(i));
        let value = trim(part.skip(i + 1));
        if key == "BlobEndpoint"@ {
            (Some(value), acc.1)
        } else if key == "SharedAccessSignature"@ {
            (acc.0, Some(value))
        } else {
            acc
        }
    } else {
        acc
    }
}

pub open spec fn scan_fields(acc: Fields, parts: Seq<Seq<char>>) -> Fields
    decreases parts.len(),
{
    if parts.len() == 0 {
        acc
    } else {
        scan_fields(field_update(acc, parts[0]), parts.drop_first())
    }
}

/// Part `p` of a connection string reads `key=value` where its text before the
/// first `=`, trimmed, is `key`.
pub open spec fn part_has_key(p: Seq<char>, key: Seq<char>) -> bool {
    find_char(p, '=') < p.len() && trim(p.take(find_char(p, '='))) == key
}

/// The value of a `key=value` part: its text after the first `=`, trimmed.
pub open spec fn part_value(p: Seq<char>) -> Seq<char> {
    trim(p.skip(find_char(p, '=') + 1))
}

/// What a field ends up as, read from parts: `None` where no part names its
/// key, else the value of the last part that does.
pub open spec fn is_last_value_of(parts: Seq<Seq<char>>, key: Seq<char>, field: Option<Seq<char>>) -> bool {
    &&& field is None <==> (forall|i: int| 0 <= i < parts.len() ==> !part_has_key(#[trigger] parts[i], key))
    &&& field is Some ==> exists|i: int|
        0 <= i < parts.len() && part_has_key(#[trigger] parts[i], key) && part_value(parts[i])
            == field->0 && forall|j: int| i < j < parts.len() ==> !part_has_key(#[trigger] parts[j], key)
}

proof fn lemma_field_update_fields(acc: Fields, p: Seq<char>)
    ensures
        field_update(acc, p).0 == if part_has_key(p, "BlobEndpoint"@) {
            Some(part_value(p))
        } else {
            acc.0
        },
        field_update(acc, p).1 == if part_has_key(p, "SharedAccessSignature"@) {
            Some(part_value(p))
        } else {
            acc.1
        },
{
    reveal_strlit("BlobEndpoint");
    reveal_strlit("SharedAccessSignature");
    assert("BlobEndpoint"@ != "SharedAccessSignature"@) by {
        assert("BlobEndpoint"@.len() != "SharedAccessSignature"@.len());
    }
    lemma_find_char(p, '=');
}

proof fn lemma_scan_fields_push(acc: Fields, parts: Seq<Seq<char>>, p: Seq<char>)
    ensures
        scan_fields(acc, parts.push(p)) == field_update(scan_fields(acc, parts), p),
    decreases parts.len(),
{
    if parts.len() == 0 {
        assert(parts.push(p).drop_first() =~= Seq::<Seq<char>>::empty());
        assert(parts.push(p)[0] == p);
        assert(scan_fields(acc, parts) == acc);
        assert(scan_fields(field_update(acc, p), parts.push(p).drop_first()) == field_update(acc, p));
    } else {
        assert(parts.push(p)[0] == parts[0]);
        assert(parts.push(p).drop_first() =~= parts.drop_first().push(p));
        lemma_scan_fields_push(field_update(acc, parts[0]), parts.drop_first(), p);
    }
}

/// A part whose key is neither `BlobEndpoint` nor `SharedAccessSignature`
/// changes nothing: other endpoints (`QueueEndpoint`, `TableEndpoint`, ...)
/// and parts without `=` are ignored.
pub proof fn law_other_parts_ignored(acc: Fields, p: Seq<char>)
    requires
        !part_has_key(p, "BlobEndpoint"@),
        !part_has_key(p, "SharedAccessSignature"@),
    ensures
        field_update(acc, p) == acc,
{
    lemma_field_update_fields(acc, p);
}

/// Read from parts, the endpoint is the value of the last `BlobEndpoint`
/// part and the signature that of the last `SharedAccessSignature` part,
/// each `None` where no part names it.
pub proof fn law_fields_are_last_values(parts: Seq<Seq<char>>)
    ensures
        is_last_value_of(parts, "BlobEndpoint"@, scan_fields((None, None), parts).0),
        is_last_value_of(parts, "SharedAccessSignature"@, scan_fields((None, None), parts).1),
    decreases parts.len(),
{
    if parts.len() > 0 {
        let q = parts.drop_last();
        let p = parts.last();
        law_fields_are_last_values(q);
        assert(q.push(p) =~= parts);
        lemma_scan_fields_push((None, None), q, p);
        lemma_field_update_fields(scan_fields((None, None), q), p);
        let r = scan_fields((None, None), parts);
        let n = parts.len() - 1;
        assert(parts[n] == p);
        assert forall|i: int| 0 <= i < q.len() implies parts[i] == q[i] by {}
        // endpoint
        if part_has_key(p, "BlobEndpoint"@) {
            assert(part_has_key(parts[n], "BlobEndpoint"@));
        } else if r.0 is Some {
            let i = choose|i: int|
                0 <= i < q.len() && part_has_key(#[trigger] q[i], "BlobEndpoint"@) && part_value(q[i])
                    == r.0->0 && forall|j: int| i < j < q.len() ==> !part_has_key(#[trigger] q[j], "BlobEndpoint"@);
            assert(part_has_key(parts[i], "BlobEndpoint"@));
            assert forall|j: int| i < j < parts.len() implies !part_has_key(#[trigger] parts[j], "BlobEndpoint"@) by {
                if j < n {
                    assert(parts[j] == q[j]);
                }
            }
        } else {
            assert forall|i: int| 0 <= i < parts.len() implies !part_has_key(#[trigger] parts[i], "BlobEndpoint"@) by {
                if i < n {
                    assert(parts[i] == q[i]);
                }
            }
        }
        // signature
        if part_has_key(p, "SharedAccessSignature"@) {
            assert(part_has_key(parts[n], "SharedAccessSignature"@));
        } else if r.1 is Some {
            let i = choose|i: int|
                0 <= i < q.len() && part_has_key(#[trigger] q[i], "SharedAccessSignature"@) && part_value(q[i])
                    == r.1->0 && forall|j: int| i < j < q.len() ==> !part_has_key(#[trigger] q[j], "SharedAccessSignature"@);
            assert(part_has_key(parts[i], "SharedAccessSignature"@));
            assert forall|j: int| i < j < parts.len() implies !part_has_key(#[trigger] parts[j], "SharedAccessSignature"@) by {
                if j < n {
                    assert(parts[j] == q[j]);
                }
            }
        } else {
            assert forall|i: int| 0 <= i < parts.len() implies !part_has_key(#[trigger] parts[i], "SharedAccessSignature"@) by {
                if i < n {
                    assert(parts[i] == q[i]);
                }
            }
        }
    }
}

/// The endpoint and signature of a connection string are the values of its
/// last `BlobEndpoint` and `SharedAccessSignature` parts (its trimmed text
/// split at `;`), each `None` where no part names it.
pub proof fn law_connection_fields(text: Seq<char>)
    ensures
        is_last_value_of(split_char(trim(text), ';'), "BlobEndpoint"@, connection_fields_of(text).0),
        is_last_value_of(
            split_char(trim(text), ';'),
            "SharedAccessSignature"@,
            connection_fields_of(text).1,
        ),
{
    law_fields_are_last_values(split_char(trim(text), ';'));
}

/// The endpoint and signature of a connection string: its trimmed text split
/// at `;`, each part read in turn.
pub open spec fn connection_fields_of(text: Seq<char>) -> Fields {
    scan_fields((None, None), split_char(trim(text), ';'))
}

/// The account name of an endpoint: every leading `https://` removed, then
/// everything before the first `.`.
pub open spec fn account_name_of(endpoint: Seq<char>) -> Seq<char> {
    let rest = trim_start_matches(endpoint, "https://"@);
    rest.take(find_char(rest, '.'))
}

pub open spec fn string_option_view(o: Option<String>) -> Option<Seq<char>> {
    match o {
        Some(s) => Some(s@),
        None => None,
    }
}

/// Reads the endpoint and the shared access signature out of a connection string.
pub fn connection_fields(text: &str) -> (r: (Option<String>, Option<String>))
    ensures
        (string_option_view(r.0), string_option_view(r.1)) == connection_fields_of(text@),
{
    let v = chars_of(text);
    let (lo, hi) = trim_range(&v, 0, v.len());
    assert(v@.subrange(0, v@.len() as int) =~= v@);
    let mut endpoint: Option<String> = None;
    let mut sas: Option<String> = None;
    let mut start = lo;
    loop
        invariant
            v@ == text@,
            lo <= start <= hi <= v.len(),
            scan_fields(
                (string_option_view(endpoint), string_option_view(sas)),
                split_char(v@.subrange(start as int, hi as int), ';'),
            ) == connection_fields_of(text@),
        ensures
            (string_option_view(endpoint), string_option_view(sas)) == connection_fields_of(
                text@,
            ),
        decreases hi - start,
    {
        let ghost rest = v@.subrange(start as int, hi as int);
        let ghost acc = (string_option_view(endpoint), string_option_view(sas));
        let j = find_char_in(&v, start, hi, ';');
        let ghost part = v@.subrange(start as int, j as int);
        assert(rest.take(j - start) =~= part);
        let k = find_char_in(&v, start, j, '=');
        if k < j {
            let (klo, khi) = trim_range(&v, start, k);
            let (vlo, vhi) = trim_range(&v, k + 1, j);
            assert(part.take(k - start) =~= v@.subrange(start as int, k as int));
            assert(part.skip(k - start + 1) =~= v@.subrange(k + 1, j as int));
            if range_equals(&v, klo, khi, "BlobEndpoint") {
                endpoint = Some(text.substring_char(vlo, vhi).to_owned());
            } else if range_equals(&v, klo, khi, "SharedAccessSignature") {
                sas = Some(text.substring_char(vlo, vhi).to_owned());
            }
        }
        assert((string_option_view(endpoint), string_option_view(sas)) == field_update(
            acc,
            part,
        ));
        if j == hi {
            assert(rest =~= part);
            assert(split_char(rest, ';') == seq![rest]);
            assert(scan_fields(acc, seq![rest]) == scan_fields(
                field_update(acc, rest),
                seq![rest].drop_first(),
            ));
            assert(seq![rest].drop_first() =~= Seq::<Seq<char>>::empty());
            break ;
        }
        let ghost tail = v@.subrange(j + 1, hi as int);
        assert(rest.skip(j - start + 1) =~= tail);
        assert(split_char(rest, ';') == seq![part] + split_char(tail, ';'));
        assert((seq![part] + split_char(tail, ';'))[0] == part);
        assert((seq![part] + split_char(tail, ';')).drop_first() =~= split_char(tail, ';'));
        start = j + 1;
    }
    (endpoint, sas)
}

/// The account name of an endpoint, e.g. `mystore` for
/// `https://mystore.blob.core.windows.net/`.
pub fn account_name(endpoint: &str) -> (r: String)
    ensures
        r@ == account_name_of(endpoint@),
{
    proof {
        reveal_strlit("https://");
    }
    let v = chars_of(endpoint);
    let n = v.len();
    let mut start: usize = 0;
    assert(v@.subrange(0, n as int) =~= endpoint@);
    while start <= n && n - start >= 8 && range_equals(&v, start, start + 8, "https://")
        invariant
            v@ == endpoint@,
            n == v.len(),
            start <= n,
            "https://"@.len() == 8,
            trim_start_matches(endpoint@, "https://"@) == trim_start_matches(
                v@.subrange(start as int, n as int),
                "https://"@,
            ),
        decreases n - start,
    {
        let ghost rest = v@.subrange(start as int, n as int);
        assert(rest.take(8) =~= v@.subrange(start as int, start + 8));
        assert(rest.skip(8) =~= v@.subrange(start + 8, n as int));
        start = start + 8;
    }
    proof {
        let rest = v@.subrange(start as int, n as int);
        if n - start >= 8 {
            assert(rest.take(8) =~= v@.subrange(start as int, start + 8));
        }
        assert(trim_start_matches(rest, "https://"@) == rest);
    }
    let j = find_char_in(&v, start, n, '.');
    assert(v@.subrange(start as int, n as int).take(j - start) =~= v@.subrange(
        start as int,
        j as int,
    ));
    endpoint.substring_char(start, j).to_owned()
}

/// What the parsed form of an account holds.
pub struct AccountView {
    pub name: Seq<char>,
    pub blob_endpoint: Seq<char>,
    pub sas: Seq<char>,
}

/// A storage account read from a connection string.
pub struct Account {
    pub name: String,
    blob_endpoint: String,
    sas: String,
}

impl View for Account {
    type V = AccountView;

    closed spec fn view(&self) -> AccountView {
        AccountView { name: self.name@, blob_endpoint: self.blob_endpoint@, sas: self.sas@ }
    }
}

/// The account that a connection string describes, where it names both an
/// endpoint and a signature.
pub open spec fn account_of_fields(f: Fields) -> Option<AccountView> {
    match f {
        (Some(endpoint), Some(sas)) => Some(
            AccountView { name: account_name_of(endpoint), blob_endpoint: endpoint, sas },
        ),
        _ => None,
    }
}

pub open spec fn account_of_text(text: Seq<char>) -> Option<AccountView> {
    account_of_fields(connection_fields_of(text))
}

pub open spec fn account_option_view(a: Option<Account>) -> Option<AccountView> {
    match a {
        Some(a) => Some(a@),
        None => None,
    }
}

/// Whether every line of a credentials file is a complete connection string.
pub open spec fn all_lines_are_accounts(content: Seq<char>) -> bool {
    forall|i: int| 0 <= i < lines(content).len() ==> (#[trigger] account_of_text(lines(content)[i])) is Some
}

/// The accounts of a credentials file, one per line.
pub open spec fn accounts_of_lines(content: Seq<char>) -> Seq<AccountView> {
    lines(content).map_values(|l: Seq<char>| account_of_text(l)->0)
}

pub open spec fn accounts_view(accounts: Seq<Account>) -> Seq<AccountView> {
    accounts.map_values(|a: Account| a@)
}

impl Account {
    /// The account that a connection string describes, or `None` where it
    /// lacks the endpoint or the signature.
    pub fn from_connection_string(text: &str) -> (r: Option<Account>)
        ensures
            account_option_view(r) == account_of_text(text@),
    {
        let (endpoint, sas) = connection_fields(text);
        match (endpoint, sas) {
            (Some(blob_endpoint), Some(sas)) => {
                let name = account_name(blob_endpoint.as_str());
                Some(Account { name, blob_endpoint, sas })
            },
            (e, s) => {
                proof {
                    assert(e is None || s is None);
                }
                None
            },
        }
    }

    pub fn blob_endpoint(&self) -> (r: &String)
        ensures
            r@ == self@.blob_endpoint,
    {
        &self.blob_endpoint
    }

    pub fn sas(&self) -> (r: &String)
        ensures
            r@ == self@.sas,
    {
        &self.sas
    }
}

/// Reads one connection string; both the endpoint and the signature must be
/// present.
pub fn parse_connection_string(connection_string: String) -> (a: Account)
    requires
        account_of_text(connection_string@) is Some,
    ensures
        Some(a@) == account_of_text(connection_string@),
{
    let parsed = Account::from_connection_string(connection_string.as_str());
    assert(parsed is Some);
    parsed.unwrap()
}

/// The accounts of a credentials file, one connection string per line.
pub fn get_storage_accounts(file_content: &str) -> (r: Option<Vec<Account>>)
    requires
        all_lines_are_accounts(file_content@),
    ensures
        r is Some,
        accounts_view(r->0@) == accounts_of_lines(file_content@),
        r->0.len() == newline_count(file_content@) + if file_content@.len() > 0
            && file_content@.last() != '\n' {
            1nat
        } else {
            0nat
        },
{
    proof {
        law_lines_count(file_content@);
    }
    let v = chars_of(file_content);
    let n = v.len();
    let ghost all = lines(file_content@);
    let mut accounts: Vec<Account> = Vec::new();
    let mut start: usize = 0;
    assert(v@.subrange(0, n as int) =~= v@);
    while start < n
        invariant
            v@ == file_content@,
            n == v.len(),
            start <= n,
            all == lines(file_content@),
            all_lines_are_accounts(file_content@),
            accounts.len() <= all.len(),
            lines(v@.subrange(start as int, n as int)) == all.skip(accounts.len() as int),
            accounts_view(accounts@) == accounts_of_lines(file_content@).take(
                accounts.len() as int,
            ),
        decreases n - start,
    {
        let ghost rest = v@.subrange(start as int, n as int);
        let ghost k = accounts.len() as int;
        let j = find_char_in(&v, start, n, '\n');
        let (line_end, next) = if j < n {
            if j > start && v[j - 1] == '\r' {
                (j - 1, j + 1)
            } else {
                (j, j + 1)
            }
        } else {
            (n, n)
        };
        let ghost tail = v@.subrange(next as int, n as int);
        let ghost line = v@.subrange(start as int, line_end as int);
        proof {
            if j < n {
                assert(rest.take(j - start) =~= v@.subrange(start as int, j as int));
                assert(strip_carriage_return(rest.take(j - start)) =~= line);
                assert(rest.skip(j - start + 1) =~= tail);
                assert(lines(rest) == seq![line] + lines(tail));
            } else {
                assert(rest =~= line);
                assert(tail =~= Seq::<char>::empty());
                assert(lines(tail) =~= Seq::<Seq<char>>::empty());
                assert(lines(rest) == seq![line]);
                assert(lines(rest) =~= seq![line] + lines(tail));
            }
            assert(lines(rest).len() >= 1);
            assert(k < all.len());
            assert(all.skip(k)[0] == all[k]);
            assert(all[k] == line);
            assert(all.skip(k + 1) =~= (seq![line] + lines(tail)).drop_first());
            assert(account_of_text(all[k]) is Some);
        }
        let text = file_content.substring_char(start, line_end).to_owned();
        let account = parse_connection_string(text);
        accounts.push(account);
        proof {
            assert(accounts_view(accounts@) =~= accounts_of_lines(file_content@).take(k + 1));
        }
        start = next;
    }
    proof {
        assert(v@.subrange(n as int, n as int) =~= Seq::<char>::empty());
        assert(lines(Seq::<char>::empty()) =~= Seq::<Seq<char>>::empty());
        assert(accounts.len() == all.len());
        assert(accounts_view(accounts@) =~= accounts_of_lines(file_content@));
    }
    Some(accounts)
}

} // verus!
