//! The credential store: first-come username enrollment and password
//! verification against a stored salted digest.

use vstd::prelude::*;

verus! {

/// Outcome of an authentication attempt.
#[derive(Clone, Copy, Debug, PartialEq, Eq, Structural)]
pub enum AuthOutcome {
    Accepted,
    Rejected,
}

/// One step of the rolling password digest: multiply by 31 and add the next
/// character, modulo 2^64.
pub open spec fn hash_step(h: u64, c: char) -> u64 {
    (((h as int) * 31 + (c as u32) as int) % 0x1_0000_0000_0000_0000) as u64
}

/// The salted one-way digest of a password: a fold of `hash_step` over its
/// characters, seeded with the salt. Only this digest is ever stored;
/// verification never stores the plaintext password.
pub open spec fn hash_of(salt: u64, password: Seq<char>) -> u64
    decreases password.len(),
{
    if password.len() == 0 {
        salt
    } else {
        hash_step(hash_of(salt, password.drop_last()), password.last())
    }
}

/// Computes `hash_of(salt, password@)`.
pub fn hash_password(salt: u64, password: &str) -> (h: u64)
    ensures
        h == hash_of(salt, password@),
{
    let len = password.unicode_len();
    let mut h = salt;
    let mut i: usize = 0;
    while i < len
        invariant
            len == password@.len(),
            i <= len,
            h == hash_of(salt, password@.subrange(0, i as int)),
        decreases len - i,
    {
        let c = password.get_char(i);
        let wide: u128 = (h as u128) * 31 + (c as u32) as u128;
        h = (wide % 0x1_0000_0000_0000_0000) as u64;
        proof {
            let prefix = password@.subrange(0, (i + 1) as int);
            assert(prefix.drop_last() =~= password@.subrange(0, i as int));
            assert(prefix.last() == password@[i as int]);
        }
        i = i + 1;
    }
    proof {
        assert(password@.subrange(0, len as int) =~= password@);
    }
    h
}

/// The spec-level image of one stored credential.
#[verifier::ext_equal]
pub struct CredentialView {
    pub username: Seq<char>,
    pub salt: u64,
    pub hash: u64,
}

/// One stored credential: a username, the salt drawn when it was enrolled,
/// and the salted digest of the password that first claimed it.
pub struct Credential {
    username: String,
    salt: u64,
    hash: u64,
}

impl View for Credential {
    type V = CredentialView;

    closed spec fn view(&self) -> CredentialView {
        CredentialView { username: self.username@, salt: self.salt, hash: self.hash }
    }
}

impl DeepView for Credential {
    type V = CredentialView;

    closed spec fn deep_view(&self) -> CredentialView {
        self@
    }
}

/// First-match lookup of a username in the stored table.
pub open spec fn lookup(table: Seq<CredentialView>, username: Seq<char>) -> Option<CredentialView>
    decreases table.len(),
{
    if table.len() == 0 {
        None
    } else if table[0].username == username {
        Some(table[0])
    } else {
        lookup(table.drop_first(), username)
    }
}

/// The decision of an authentication attempt: a known username is accepted
/// exactly when the digest of the offered password under the stored salt
/// matches the stored digest; an unknown username is always accepted (it is
/// enrolled on the spot).
pub open spec fn auth_result(
    table: Seq<CredentialView>,
    username: Seq<char>,
    password: Seq<char>,
) -> AuthOutcome {
    match lookup(table, username) {
        Some(c) => if c.hash == hash_of(c.salt, password) {
            AuthOutcome::Accepted
        } else {
            AuthOutcome::Rejected
        },
        None => AuthOutcome::Accepted,
    }
}

/// The table after an authentication attempt: unchanged for a known
/// username; extended by one fresh salted credential when the username was
/// unknown (first-come registration claims it permanently).
pub open spec fn auth_table(
    table: Seq<CredentialView>,
    username: Seq<char>,
    password: Seq<char>,
    salt: u64,
) -> Seq<CredentialView> {
    match lookup(table, username) {
        Some(_) => table,
        None => table.push(
            CredentialView { username, salt, hash: hash_of(salt, password) },
        ),
    }
}

/// Persists username -> salted-digest pairs; verifies or enrolls a
/// credential on first use.
pub struct CredentialStore {
    creds: Vec<Credential>,
}

impl View for CredentialStore {
    type V = Seq<CredentialView>;

    closed spec fn view(&self) -> Seq<CredentialView> {
        self.creds.deep_view()
    }
}

impl CredentialStore {
    /// For a known username, exactly one credential is stored.
    pub open spec fn wf(&self) -> bool {
        forall|i: int, j: int|
            0 <= i < j < self@.len() ==> self@[i].username != self@[j].username
    }

    /// An empty store.
    pub fn new() -> (store: CredentialStore)
        ensures
            store.wf(),
            store@ == Seq::<CredentialView>::empty(),
    {
        let store = CredentialStore { creds: Vec::new() };
        proof {
            assert(store@ =~= Seq::<CredentialView>::empty());
        }
        store
    }

    /// The number of enrolled usernames.
    pub fn len(&self) -> (n: usize)
        ensures
            n == self@.len(),
    {
        self.creds.len()
    }

    /// Verifies the password of a known username, or enrolls an unknown one
    /// under the given fresh salt. First-come registration: the first client
    /// to use a username claims it permanently.
    pub fn verify_or_enroll(&mut self, username: &str, password: &str, salt: u64) -> (outcome:
        AuthOutcome)
        requires
            old(self).wf(),
        ensures
            final(self).wf(),
            outcome == auth_result(old(self)@, username@, password@),
            final(self)@ == auth_table(old(self)@, username@, password@, salt),
    {
        let uname: String = username.to_owned();
        proof {
            assert(self@.skip(0) =~= self@);
        }
        let mut i: usize = 0;
        while i < self.creds.len()
            invariant
                *self == *old(self),
                old(self).wf(),
                uname@ == username@,
                i <= self.creds.len(),
                self@.len() == self.creds.len(),
                lookup(self@, username@) == lookup(self@.skip(i as int), username@),
                forall|j: int| 0 <= j < i ==> self@[j].username != username@,
            decreases self.creds.len() - i,
        {
            let ghost rest = self@.skip(i as int);
            proof {
                assert(rest[0] == self@[i as int]);
                assert(rest.drop_first() =~= self@.skip(i + 1));
            }
            if self.creds[i].username == uname {
                let expected = hash_password(self.creds[i].salt, password);
                proof {
                    assert(lookup(self@, username@) == Some(self@[i as int]));
                }
                if expected == self.creds[i].hash {
                    return AuthOutcome::Accepted;
                } else {
                    return AuthOutcome::Rejected;
                }
            }
            i = i + 1;
        }
        proof {
            assert(self@.skip(self.creds.len() as int) =~= Seq::<CredentialView>::empty());
            assert(lookup(self@, username@) is None);
        }
        let hash = hash_password(salt, password);
        let ghost before = self@;
        self.creds.push(Credential { username: uname, salt, hash });
        proof {
            assert(self@ =~= before.push(
                CredentialView { username: username@, salt, hash: hash_of(salt, password@) },
            ));
        }
        AuthOutcome::Accepted
    }
}

/// Pushing a credential for a username that lookup did not find makes lookup
/// find exactly that credential.
proof fn lemma_lookup_push_absent(table: Seq<CredentialView>, cred: CredentialView)
    requires
        lookup(table, cred.username) is None,
    ensures
        lookup(table.push(cred), cred.username) == Some(cred),
    decreases table.len(),
{
    if table.len() == 0 {
        assert(table.push(cred)[0] == cred);
    } else {
        lemma_lookup_push_absent(table.drop_first(), cred);
        assert(table.push(cred)[0] == table[0]);
        assert(table.push(cred).drop_first() =~= table.drop_first().push(cred));
    }
}

/// Auth idempotence law: enrolling an unknown username with a password
/// accepts; reconnecting with the same password accepts again; reconnecting
/// with a password whose digest differs is rejected. (Two distinct passwords
/// whose digests collide under the stored salt are excluded: the store can
/// only compare digests.)
pub proof fn lemma_auth_idempotence(
    table: Seq<CredentialView>,
    username: Seq<char>,
    p1: Seq<char>,
    p2: Seq<char>,
    salt: u64,
)
    requires
        lookup(table, username) is None,
    ensures
        auth_result(table, username, p1) == AuthOutcome::Accepted,
        auth_result(auth_table(table, username, p1, salt), username, p1)
            == AuthOutcome::Accepted,
        hash_of(salt, p2) != hash_of(salt, p1) ==> auth_result(
            auth_table(table, username, p1, salt),
            username,
            p2,
        ) == AuthOutcome::Rejected,
{
    let cred = CredentialView { username, salt, hash: hash_of(salt, p1) };
    lemma_lookup_push_absent(table, cred);
}

} // verus!
