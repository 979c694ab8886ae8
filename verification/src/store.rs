//! The OS keyring entry that holds every secret.
//!
//! A keyring charges its access controls per entry, so every secret lives in
//! one entry, `ACCOUNT`, as the records of `codec`.

use vstd::prelude::*;
use vstd::utf8::encode_utf8;
use keyring::Entry;
use crate::codec::{decode, encode, lemma_decode_encode, spec_decode, spec_encode, DecodeError};
use crate::secret::Secret;
use crate::secrets::{lemma_map_of_index, map_of, Listing, Secrets, sorted_by_name};

verus! {

#[verifier::external_type_specification]
#[verifier::external_body]
pub struct ExEntry(Entry);

/// The keyring service under which entries are kept.
pub const SERVICE: &'static str = "reliquary";

/// The one entry that holds every secret.
pub const ACCOUNT: &'static str = "secrets";

/// A failure reported by the keyring, with its message.
#[derive(Debug)]
pub enum KeyringError {
    /// No credential is stored for the entry.
    NoEntry,
    /// More than one credential matches the entry.
    Ambiguous(String),
    /// Any other failure of the platform store.
    Other(String),
}

/// A failure of the secret store.
#[derive(Debug)]
pub enum StoreError {
    /// The keyring entry for `account` could not be opened.
    Open { account: String, cause: KeyringError },
    /// More than one keyring entry matches the service.
    Ambiguous,
    /// The entry could not be read.
    Read(KeyringError),
    /// The entry does not hold well-formed records.
    Decode(DecodeError),
    /// The entry could not be written.
    Write(KeyringError),
    /// The entry could not be deleted.
    Clear(KeyringError),
    /// A secret kept in an entry of its own could not be read.
    ReadSeparate { name: String, cause: KeyringError },
    /// A secret kept in an entry of its own could not be deleted.
    DeleteSeparate { name: String, cause: KeyringError },
}

/// A keyring entry, named by its service and its user (the account).
pub struct EntryId {
    pub service: Seq<char>,
    pub user: Seq<char>,
}

/// The entry that holds every secret.
pub open spec fn secrets_entry() -> EntryId {
    EntryId { service: SERVICE@, user: ACCOUNT@ }
}

/// The entry of its own that held secret `name` in older versions.
pub open spec fn separate_entry(name: Seq<char>) -> EntryId {
    EntryId { service: SERVICE@, user: name }
}

/// One call made to the keyring, with the entry it was made on.
pub enum KeyringCall {
    /// Open the entry.
    Open(EntryId),
    /// Read the entry's password.
    Read(EntryId),
    /// Write this text as the entry's password.
    Write(EntryId, Seq<char>),
    /// Delete the entry's credential.
    Delete(EntryId),
}

/// `keyring::Entry::new(service, user)`: opens the entry of `user` under
/// `service`. Whether that succeeds depends on the platform store, so nothing
/// is claimed of it; beside the outcome it hands back, as a ghost, the
/// service and user it was given.
#[verifier::external_body]
fn keyring_entry(service: &str, user: &str) -> (r: (Result<Entry, KeyringError>, Ghost<EntryId>))
    ensures
        r.1@ == (EntryId { service: service@, user: user@ }),
{
    let opened = match Entry::new(service, user) {
        Ok(entry) => Ok(entry),
        Err(keyring::Error::NoEntry) => Err(KeyringError::NoEntry),
        Err(e @ keyring::Error::Ambiguous(_)) => Err(KeyringError::Ambiguous(e.to_string())),
        Err(e) => Err(KeyringError::Other(e.to_string())),
    };
    (opened, Ghost(EntryId { service: service@, user: user@ }))
}

/// `keyring::Entry::get_password`: reads the entry's password; what comes
/// back depends on the platform store, so nothing is claimed of it.
#[verifier::external_body]
fn keyring_read(entry: &Entry) -> (r: Result<String, KeyringError>) {
    match entry.get_password() {
        Ok(password) => Ok(password),
        Err(keyring::Error::NoEntry) => Err(KeyringError::NoEntry),
        Err(e @ keyring::Error::Ambiguous(_)) => Err(KeyringError::Ambiguous(e.to_string())),
        Err(e) => Err(KeyringError::Other(e.to_string())),
    }
}

/// `keyring::Entry::set_password`: writes `password` to the entry; the
/// outcome depends on the platform store, so nothing is claimed of it. Beside
/// the outcome it hands back a ghost copy of the text it was given.
#[verifier::external_body]
fn keyring_write(entry: &Entry, password: &str) -> (r: (Result<(), KeyringError>, Ghost<Seq<char>>))
    ensures
        r.1@ == password@,
{
    let outcome = match entry.set_password(password) {
        Ok(()) => Ok(()),
        Err(keyring::Error::NoEntry) => Err(KeyringError::NoEntry),
        Err(e @ keyring::Error::Ambiguous(_)) => Err(KeyringError::Ambiguous(e.to_string())),
        Err(e) => Err(KeyringError::Other(e.to_string())),
    };
    (outcome, Ghost(password@))
}

/// `keyring::Entry::delete_credential`: deletes the entry's credential; the
/// outcome depends on the platform store, so nothing is claimed of it.
#[verifier::external_body]
fn keyring_delete(entry: &Entry) -> (r: Result<(), KeyringError>) {
    match entry.delete_credential() {
        Ok(()) => Ok(()),
        Err(keyring::Error::NoEntry) => Err(KeyringError::NoEntry),
        Err(e @ keyring::Error::Ambiguous(_)) => Err(KeyringError::Ambiguous(e.to_string())),
        Err(e) => Err(KeyringError::Other(e.to_string())),
    }
}

/// The entry of `account` could not be opened.
pub open spec fn open_failed<T>(r: Result<T, StoreError>, account: Seq<char>) -> bool {
    r matches Err(StoreError::Open { account: a, .. }) && a@ == account
}

/// `r` is what a read of the secrets entry that answered `reply` yields: the
/// decoded records; nothing stored yet means no secrets, not an error.
pub open spec fn loaded_from(reply: Result<String, KeyringError>, r: Result<Secrets, StoreError>) -> bool {
    match reply {
        Ok(blob) => match spec_decode(encode_utf8(blob@)) {
            Ok(m) => r matches Ok(s) && s@ == m,
            Err(e) => r matches Err(StoreError::Decode(e2)) && e2@ == e,
        },
        Err(KeyringError::NoEntry) => r matches Ok(s) && s@ == Map::<Seq<char>, Seq<char>>::empty(),
        Err(KeyringError::Ambiguous(_)) => r matches Err(StoreError::Ambiguous),
        Err(e) => r == Err::<Secrets, StoreError>(StoreError::Read(e)),
    }
}

/// What `load` did: it opened the secrets entry and, where that failed,
/// asked nothing more; otherwise it read that entry and `r` is what the read
/// yields for some answer of the keyring.
pub open spec fn load_effect(r: Result<Secrets, StoreError>, calls: Seq<KeyringCall>) -> bool {
    ||| open_failed(r, ACCOUNT@) && calls == seq![KeyringCall::Open(secrets_entry())]
    ||| calls == seq![KeyringCall::Open(secrets_entry()), KeyringCall::Read(secrets_entry())]
        && exists|reply: Result<String, KeyringError>| loaded_from(reply, r)
}

/// `r` is what a deletion of an entry that answered `reply` yields: an entry
/// that is already gone counts as deleted.
pub open spec fn cleared_from(reply: Result<(), KeyringError>, r: Result<(), StoreError>) -> bool {
    match reply {
        Ok(()) => r == Ok::<(), StoreError>(()),
        Err(KeyringError::NoEntry) => r == Ok::<(), StoreError>(()),
        Err(e) => r == Err::<(), StoreError>(StoreError::Clear(e)),
    }
}

/// `r` is what a write to the secrets entry that answered `reply` yields.
pub open spec fn written_from(reply: Result<(), KeyringError>, r: Result<(), StoreError>) -> bool {
    match reply {
        Ok(()) => r == Ok::<(), StoreError>(()),
        Err(e) => r == Err::<(), StoreError>(StoreError::Write(e)),
    }
}

/// `t` is the text of the secrets `m`: the records of their entries, sorted
/// by name.
pub open spec fn records_of(m: Map<Seq<char>, Seq<char>>, t: Seq<char>) -> bool {
    exists|l: Listing| #[trigger] map_of(l) == m && sorted_by_name(l) && encode_utf8(t) == spec_encode(l)
}

/// What saving the secrets `m` did, `calls` being the calls it made to the
/// keyring and `r` the outcome. It opened the secrets entry and touched no
/// other; where the open failed it asked nothing more. With no secrets it
/// deleted the entry's credential (an absent one counts as deleted); with
/// some it wrote their text.
pub open spec fn save_effect(m: Map<Seq<char>, Seq<char>>, r: Result<(), StoreError>, calls: Seq<KeyringCall>) -> bool {
    ||| open_failed(r, ACCOUNT@) && calls == seq![KeyringCall::Open(secrets_entry())]
    ||| m == Map::<Seq<char>, Seq<char>>::empty() && calls == seq![
        KeyringCall::Open(secrets_entry()),
        KeyringCall::Delete(secrets_entry()),
    ] && exists|reply: Result<(), KeyringError>| cleared_from(reply, r)
    ||| m != Map::<Seq<char>, Seq<char>>::empty() && calls.len() == 2 && calls[0] == KeyringCall::Open(
        secrets_entry(),
    ) && (calls[1] matches KeyringCall::Write(e, t) && e == secrets_entry() && records_of(m, t))
        && exists|reply: Result<(), KeyringError>| written_from(reply, r)
}

/// `calls` are `first` followed by the calls of a save of `m` that had the
/// outcome `r`.
pub open spec fn then_saved(
    first: Seq<KeyringCall>,
    m: Map<Seq<char>, Seq<char>>,
    r: Result<(), StoreError>,
    calls: Seq<KeyringCall>,
) -> bool {
    &&& first.len() <= calls.len()
    &&& calls.take(first.len() as int) == first
    &&& save_effect(m, r, calls.skip(first.len() as int))
}

/// Opens the keyring entry of `account` under `SERVICE`.
fn entry(account: &str) -> (r: (Result<Entry, StoreError>, Ghost<EntryId>))
    ensures
        r.1@ == (EntryId { service: SERVICE@, user: account@ }),
        r.0 matches Err(e) ==> (e matches StoreError::Open { account: a, .. } && a@ == account@),
{
    let (opened, id) = keyring_entry(SERVICE, account);
    match opened {
        Ok(entry) => (Ok(entry), id),
        Err(cause) => (Err(StoreError::Open { account: account.to_owned(), cause }), id),
    }
}

/// What a read of the secrets entry yields: the decoded records; nothing
/// stored yet means no secrets, not an error.
pub fn loaded(reply: Result<String, KeyringError>) -> (r: Result<Secrets, StoreError>)
    ensures
        loaded_from(reply, r),
{
    match reply {
        Ok(text) => {
            let mut blob = Secret::new(text);
            let decoded = decode(blob.expose());
            blob.wipe();
            match decoded {
                Ok(secrets) => Ok(secrets),
                Err(e) => Err(StoreError::Decode(e)),
            }
        },
        Err(KeyringError::NoEntry) => Ok(Secrets::new()),
        Err(KeyringError::Ambiguous(_)) => Err(StoreError::Ambiguous),
        Err(e) => Err(StoreError::Read(e)),
    }
}

/// Reads every stored secret from the secrets entry. Beside the outcome it
/// hands back the calls it made to the keyring.
pub fn load() -> (r: (Result<Secrets, StoreError>, Ghost<Seq<KeyringCall>>))
    ensures
        load_effect(r.0, r.1@),
{
    let (opened, id) = entry(ACCOUNT);
    let entry = match opened {
        Ok(entry) => entry,
        Err(e) => {
            let ghost calls = seq![KeyringCall::Open(id@)];
            return (Err(e), Ghost(calls));
        },
    };
    let reply = keyring_read(&entry);
    let ghost answer = reply;
    let r = loaded(reply);
    assert(loaded_from(answer, r));
    let ghost calls = seq![KeyringCall::Open(id@), KeyringCall::Read(id@)];
    (r, Ghost(calls))
}

/// What saving `secrets` does to the keyring entry.
pub enum SaveAction {
    /// Delete the entry: there is nothing to keep.
    Clear,
    /// Write this text to the entry.
    Write(Secret),
}

/// Saving no secrets deletes the entry; saving some writes their records.
pub fn save_action(secrets: &Secrets) -> (a: SaveAction)
    ensures
        sorted_by_name(secrets.listing()),
        secrets@ == Map::<Seq<char>, Seq<char>>::empty() <==> a is Clear,
        a matches SaveAction::Write(blob) ==> encode_utf8(blob@) == spec_encode(secrets.listing()),
{
    if secrets.is_empty() {
        SaveAction::Clear
    } else {
        SaveAction::Write(Secret::new(encode(secrets)))
    }
}

/// What a deletion of the secrets entry yields: an entry that is already
/// gone counts as deleted.
pub fn cleared(reply: Result<(), KeyringError>) -> (r: Result<(), StoreError>)
    ensures
        cleared_from(reply, r),
{
    match reply {
        Ok(()) => Ok(()),
        Err(KeyringError::NoEntry) => Ok(()),
        Err(e) => Err(StoreError::Clear(e)),
    }
}

/// Deletes the credential of the secrets entry.
fn clear() -> (r: (Result<(), StoreError>, Ghost<Seq<KeyringCall>>))
    ensures
        save_effect(Map::empty(), r.0, r.1@),
{
    let (opened, id) = entry(ACCOUNT);
    let entry = match opened {
        Ok(entry) => entry,
        Err(e) => {
            let ghost calls = seq![KeyringCall::Open(id@)];
            return (Err(e), Ghost(calls));
        },
    };
    let reply = keyring_delete(&entry);
    let ghost answer = reply;
    let r = cleared(reply);
    assert(cleared_from(answer, r));
    let ghost calls = seq![KeyringCall::Open(id@), KeyringCall::Delete(id@)];
    (r, Ghost(calls))
}

/// Writes `secrets` to the secrets entry: their records, or no credential at
/// all when there are none. Beside the outcome it hands back the calls it
/// made to the keyring.
pub fn save(secrets: &Secrets) -> (r: (Result<(), StoreError>, Ghost<Seq<KeyringCall>>))
    ensures
        save_effect(secrets@, r.0, r.1@),
{
    match save_action(secrets) {
        SaveAction::Clear => clear(),
        SaveAction::Write(mut blob) => {
            let (opened, id) = entry(ACCOUNT);
            let entry = match opened {
                Ok(entry) => entry,
                Err(e) => {
                    blob.wipe();
                    let ghost calls = seq![KeyringCall::Open(id@)];
                    return (Err(e), Ghost(calls));
                },
            };
            let (written, sent) = keyring_write(&entry, blob.expose());
            let ghost answer = written;
            let ghost text = blob@;
            blob.wipe();
            let r = match written {
                Ok(()) => Ok(()),
                Err(e) => Err(StoreError::Write(e)),
            };
            proof {
                assert(written_from(answer, r));
                assert(map_of(secrets.listing()) == secrets@);
                assert(records_of(secrets@, text));
            }
            let ghost calls = seq![KeyringCall::Open(id@), KeyringCall::Write(id@, sent@)];
            (r, Ghost(calls))
        },
    }
}

/// Stores `value` under `name`, keeping every other secret: the secrets
/// loaded from the secrets entry, with `name` set to `value`, are saved to
/// it. When the load fails nothing more is asked of the keyring.
pub fn set(name: &str, value: &str) -> (r: (Result<(), StoreError>, Ghost<Seq<KeyringCall>>))
    ensures
        exists|l: Result<Secrets, StoreError>, lc: Seq<KeyringCall>|
            #![trigger load_effect(l, lc)]
            load_effect(l, lc) && match l {
                Err(e) => r.0 == Err::<(), StoreError>(e) && r.1@ == lc,
                Ok(s) => then_saved(lc, s@.insert(name@, value@), r.0, r.1@),
            },
{
    let (l, lc) = load();
    let ghost loaded_result = l;
    let mut secrets = match l {
        Ok(secrets) => secrets,
        Err(e) => {
            assert(load_effect(loaded_result, lc@));
            return (Err(e), lc);
        },
    };
    secrets.insert(name.to_owned(), Secret::new(value.to_owned()));
    let (saved, sc) = save(&secrets);
    secrets.wipe();
    let ghost calls = lc@ + sc@;
    assert(calls.take(lc@.len() as int) =~= lc@);
    assert(calls.skip(lc@.len() as int) =~= sc@);
    assert(load_effect(loaded_result, lc@));
    (saved, Ghost(calls))
}

/// Removes the secret stored under `name`: the secrets loaded from the
/// secrets entry, without it, are saved to it. One that is already absent
/// counts as removed, and then nothing more is asked of the keyring.
pub fn delete(name: &str) -> (r: (Result<(), StoreError>, Ghost<Seq<KeyringCall>>))
    ensures
        exists|l: Result<Secrets, StoreError>, lc: Seq<KeyringCall>|
            #![trigger load_effect(l, lc)]
            load_effect(l, lc) && match l {
                Err(e) => r.0 == Err::<(), StoreError>(e) && r.1@ == lc,
                Ok(s) => if s@.contains_key(name@) {
                    then_saved(lc, s@.remove(name@), r.0, r.1@)
                } else {
                    r.0 == Ok::<(), StoreError>(()) && r.1@ == lc
                },
            },
{
    let (l, lc) = load();
    let ghost loaded_result = l;
    let mut secrets = match l {
        Ok(secrets) => secrets,
        Err(e) => {
            assert(load_effect(loaded_result, lc@));
            return (Err(e), lc);
        },
    };
    assert(load_effect(loaded_result, lc@));
    match secrets.remove(name) {
        None => {
            secrets.wipe();
            (Ok(()), lc)
        },
        Some(mut value) => {
            value.wipe();
            let (saved, sc) = save(&secrets);
            secrets.wipe();
            let ghost calls = lc@ + sc@;
            assert(calls.take(lc@.len() as int) =~= lc@);
            assert(calls.skip(lc@.len() as int) =~= sc@);
            (saved, Ghost(calls))
        },
    }
}

/// `r` is what a read of the entry of its own that holds secret `name`
/// yields when the keyring answered `reply`.
pub open spec fn separate_loaded_from(
    name: Seq<char>,
    reply: Result<String, KeyringError>,
    r: Result<Option<Secret>, StoreError>,
) -> bool {
    match reply {
        Ok(value) => r matches Ok(Some(s)) && s@ == value@,
        Err(KeyringError::NoEntry) => r matches Ok(None),
        Err(e) => r matches Err(StoreError::ReadSeparate { name: n, cause }) && n@ == name && cause
            == e,
    }
}

/// `r` is what deleting the entry of its own that holds secret `name` yields
/// when the keyring answered `reply`: one that is already gone counts as deleted.
pub open spec fn separate_deleted_from(
    name: Seq<char>,
    reply: Result<(), KeyringError>,
    r: Result<(), StoreError>,
) -> bool {
    match reply {
        Ok(()) => r == Ok::<(), StoreError>(()),
        Err(KeyringError::NoEntry) => r == Ok::<(), StoreError>(()),
        Err(e) => r matches Err(StoreError::DeleteSeparate { name: n, cause }) && n@ == name
            && cause == e,
    }
}

/// What a read of a secret kept in an entry of its own (the layout of older
/// versions, one entry per name) yields.
pub fn separate_loaded(name: &str, reply: Result<String, KeyringError>) -> (r: Result<
    Option<Secret>,
    StoreError,
>)
    ensures
        separate_loaded_from(name@, reply, r),
{
    match reply {
        Ok(value) => Ok(Some(Secret::new(value))),
        Err(KeyringError::NoEntry) => Ok(None),
        Err(cause) => Err(StoreError::ReadSeparate { name: name.to_owned(), cause }),
    }
}

/// Reads a secret stored under the old one-entry-per-name layout, from the
/// entry of `name` under `SERVICE`. Beside the outcome it hands back the
/// calls it made to the keyring.
pub fn load_separate(name: &str) -> (r: (Result<Option<Secret>, StoreError>, Ghost<Seq<KeyringCall>>))
    ensures
        open_failed(r.0, name@) && r.1@ == seq![KeyringCall::Open(separate_entry(name@))]
            || r.1@ == seq![KeyringCall::Open(separate_entry(name@)), KeyringCall::Read(separate_entry(name@))]
            && exists|reply: Result<String, KeyringError>| separate_loaded_from(name@, reply, r.0),
{
    let (opened, id) = entry(name);
    let entry = match opened {
        Ok(entry) => entry,
        Err(e) => {
            let ghost calls = seq![KeyringCall::Open(id@)];
            return (Err(e), Ghost(calls));
        },
    };
    let reply = keyring_read(&entry);
    let ghost answer = reply;
    let r = separate_loaded(name, reply);
    assert(separate_loaded_from(name@, answer, r));
    let ghost calls = seq![KeyringCall::Open(id@), KeyringCall::Read(id@)];
    (r, Ghost(calls))
}

/// What deleting a secret kept in an entry of its own yields: one that is
/// already gone counts as deleted.
pub fn separate_deleted(name: &str, reply: Result<(), KeyringError>) -> (r: Result<(), StoreError>)
    ensures
        separate_deleted_from(name@, reply, r),
{
    match reply {
        Ok(()) => Ok(()),
        Err(KeyringError::NoEntry) => Ok(()),
        Err(cause) => Err(StoreError::DeleteSeparate { name: name.to_owned(), cause }),
    }
}

/// Deletes a secret stored under the old one-entry-per-name layout, from the
/// entry of `name` under `SERVICE`. Beside the outcome it hands back the
/// calls it made to the keyring.
pub fn delete_separate(name: &str) -> (r: (Result<(), StoreError>, Ghost<Seq<KeyringCall>>))
    ensures
        open_failed(r.0, name@) && r.1@ == seq![KeyringCall::Open(separate_entry(name@))]
            || r.1@ == seq![KeyringCall::Open(separate_entry(name@)), KeyringCall::Delete(separate_entry(name@))]
            && exists|reply: Result<(), KeyringError>| separate_deleted_from(name@, reply, r.0),
{
    let (opened, id) = entry(name);
    let entry = match opened {
        Ok(entry) => entry,
        Err(e) => {
            let ghost calls = seq![KeyringCall::Open(id@)];
            return (Err(e), Ghost(calls));
        },
    };
    let reply = keyring_delete(&entry);
    let ghost answer = reply;
    let r = separate_deleted(name, reply);
    assert(separate_deleted_from(name@, answer, r));
    let ghost calls = seq![KeyringCall::Open(id@), KeyringCall::Delete(id@)];
    (r, Ghost(calls))
}

/// `reply` is how a keyring that keeps what it is given answers a read of an
/// entry after `c`, the last call made on it: with the text written, or with
/// no entry after a delete.
pub open spec fn answers_after(c: KeyringCall, reply: Result<String, KeyringError>) -> bool {
    match c {
        KeyringCall::Write(_, t) => reply matches Ok(text) && text@ == t,
        KeyringCall::Delete(_) => reply matches Err(KeyringError::NoEntry),
        _ => false,
    }
}

/// The entry a call was made on.
pub open spec fn call_entry(c: KeyringCall) -> EntryId {
    match c {
        KeyringCall::Open(e) => e,
        KeyringCall::Read(e) => e,
        KeyringCall::Write(e, _) => e,
        KeyringCall::Delete(e) => e,
    }
}

/// What `save` writes, a later `load` gives back. When a save of `m`
/// succeeded with the calls `saved`, a load then read with the calls `read`,
/// and the keyring answered that read as its last call from the save left
/// it, the load read the very entry the save changed, and it yields `m`.
/// This holds for secrets whose names hold no newline (each value's UTF-8
/// length must fit a `usize`, as that of any string in memory does).
pub proof fn lemma_load_reads_what_save_writes(
    m: Map<Seq<char>, Seq<char>>,
    saved: Seq<KeyringCall>,
    read: Seq<KeyringCall>,
    reply: Result<String, KeyringError>,
    r: Result<Secrets, StoreError>,
)
    requires
        save_effect(m, Ok(()), saved),
        forall|k: Seq<char>| #[trigger] m.contains_key(k) ==> !k.contains('\n') && encode_utf8(m[k]).len() <= usize::MAX,
        load_effect(r, read),
        answers_after(saved.last(), reply),
        loaded_from(reply, r),
    ensures
        read.last() == KeyringCall::Read(call_entry(saved.last())),
        call_entry(saved.last()) == secrets_entry(),
        r matches Ok(s) && s@ == m,
{
    if m == Map::<Seq<char>, Seq<char>>::empty() {
        assert(saved.last() == KeyringCall::Delete(secrets_entry()));
    } else {
        let t = saved[1]->Write_1;
        let l = choose|l: Listing| #[trigger] map_of(l) == m && sorted_by_name(l) && encode_utf8(t) == spec_encode(l);
        assert forall|i: int| 0 <= i < l.len() implies !(#[trigger] l[i]).0.contains('\n') && encode_utf8(l[i].1).len() <= usize::MAX by {
            lemma_map_of_index(l, i);
            assert(m.contains_key(l[i].0));
        }
        lemma_decode_encode(l);
    }
}

} // verus!
