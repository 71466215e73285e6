use rand::RngCore;
use sha2::Digest;
use std::time::SystemTime;
use vstd::prelude::*;

use crate::text::{hex_char, hex_digit, push_char, text_eq};

verus! {

broadcast use vstd::string::group_string_axioms;

/// `bytes` written as lowercase hexadecimal, two digits per byte, high digit first.
pub open spec fn hex_of(bytes: Seq<u8>) -> Seq<char>
    decreases bytes.len(),
{
    if bytes.len() == 0 {
        Seq::empty()
    } else {
        hex_of(bytes.drop_last()) + seq![
            hex_digit(bytes.last() as int / 16),
            hex_digit(bytes.last() as int % 16),
        ]
    }
}

/// The SHA-256 digest of `bytes`.
pub uninterp spec fn sha256_digest(bytes: Seq<u8>) -> Seq<u8>;

/// Under which key a token is stored: the hexadecimal SHA-256 digest of its text.
pub open spec fn token_key(text: Seq<char>) -> Seq<char> {
    hex_of(sha256_digest(vstd::utf8::encode_utf8(text)))
}

/// `bytes` as lowercase hexadecimal text.
pub fn lower_hex(bytes: &[u8]) -> (r: String)
    ensures
        r@ == hex_of(bytes@),
{
    let mut out = String::new();
    let mut i: usize = 0;
    while i < bytes.len()
        invariant
            i <= bytes.len(),
            out@ == hex_of(bytes@.subrange(0, i as int)),
        decreases bytes.len() - i,
    {
        let b = bytes[i];
        push_char(&mut out, hex_char(b / 16));
        push_char(&mut out, hex_char(b % 16));
        proof {
            let next = bytes@.subrange(0, i + 1);
            assert(next.drop_last() =~= bytes@.subrange(0, i as int));
            assert(out@ =~= hex_of(next));
        }
        i += 1;
    }
    assert(bytes@.subrange(0, bytes.len() as int) =~= bytes@);
    out
}

/// How long a token stays valid after it was issued: one day, in nanoseconds.
pub const TOKEN_LIFETIME_NANOS: u128 = 86_400_000_000_000;

/// `SystemTime` of std, carried through as an opaque value.
#[verifier::external_type_specification]
#[verifier::external_body]
pub struct ExSystemTime(SystemTime);

/// `sha2::Sha256::digest`: the SHA-256 digest of `bytes`, which is 32 bytes long.
#[verifier::external_body]
fn sha256(bytes: &[u8]) -> (r: Vec<u8>)
    ensures
        r@ == sha256_digest(bytes@),
        r@.len() == 32,
{
    sha2::Sha256::digest(bytes).to_vec()
}

/// `hex::encode`: `bytes` as lowercase hexadecimal text, two digits per byte.
#[verifier::external_body]
fn hex_encode(bytes: &[u8]) -> (r: String)
    ensures
        r@ == hex_of(bytes@),
{
    hex::encode(bytes)
}

/// `rand::rngs::OsRng::fill_bytes` on 32 bytes. Nothing is stated of the bytes but their
/// number; the call panics where the operating system gives no randomness.
#[verifier::external_body]
fn random_bytes() -> (r: Vec<u8>)
    ensures
        r@.len() == 32,
{
    let mut bytes = [0u8; 32];
    rand::rngs::OsRng.fill_bytes(&mut bytes);
    bytes.to_vec()
}

/// `SystemTime::now`. Nothing is stated of the clock.
#[verifier::external_body]
fn now() -> SystemTime {
    SystemTime::now()
}

/// `SystemTime::elapsed`, in nanoseconds; `None` where the clock went backwards.
/// Nothing is stated of the clock.
#[verifier::external_body]
fn elapsed_nanos(t: &SystemTime) -> Option<u128> {
    match t.elapsed() {
        Ok(d) => Some(d.as_nanos()),
        Err(_) => None,
    }
}

/// A bearer token handed to a user at login.
#[derive(Debug, Clone)]
pub struct Token(pub String);

impl Token {
    /// A fresh token: 32 random bytes in hexadecimal.
    fn generate() -> (r: Token)
        ensures
            r.0@.len() == 64,
            exists|b: Seq<u8>| b.len() == 32 && r.0@ == #[trigger] hex_of(b),
    {
        let bytes = random_bytes();
        proof {
            lemma_hex_of_len(bytes@);
        }
        let r = Token(hex_encode(bytes.as_slice()));
        assert(r.0@ == hex_of(bytes@));
        r
    }
}

/// Hexadecimal text has two digits per byte.
pub proof fn lemma_hex_of_len(bytes: Seq<u8>)
    ensures
        hex_of(bytes).len() == 2 * bytes.len(),
    decreases bytes.len(),
{
    if bytes.len() > 0 {
        lemma_hex_of_len(bytes.drop_last());
    }
}

/// The key under which `token` is stored.
fn hash_token(token: &Token) -> (r: String)
    ensures
        r@ == token_key(token.0@),
{
    let digest = sha256(token.0.as_str().as_bytes());
    lower_hex(digest.as_slice())
}

/// Whether a token issued `elapsed` nanoseconds ago is still valid: at most a day old; `None`
/// (the clock went backwards) is not.
pub open spec fn still_valid(elapsed: Option<u128>) -> bool {
    elapsed matches Some(n) && n <= TOKEN_LIFETIME_NANOS
}

/// What a store `m` answers for the token `text` issued `elapsed` nanoseconds ago: the user it
/// was issued to, while it is stored and still valid.
pub open spec fn resolved(m: Map<Seq<char>, Seq<char>>, text: Seq<char>, elapsed: Option<u128>) -> Option<Seq<char>> {
    if m.contains_key(token_key(text)) && still_valid(elapsed) {
        Some(m[token_key(text)])
    } else {
        None
    }
}

/// The text of an optional string.
pub open spec fn name_of(r: Option<String>) -> Option<Seq<char>> {
    match r {
        Some(s) => Some(s@),
        None => None,
    }
}

/// Whether a token issued `elapsed` nanoseconds ago is still valid; `None` (the clock went
/// backwards) is not.
pub fn token_still_valid(elapsed: Option<u128>) -> (r: bool)
    ensures
        r == (elapsed matches Some(n) && n <= TOKEN_LIFETIME_NANOS),
        r == still_valid(elapsed),
{
    match elapsed {
        Some(n) => n <= TOKEN_LIFETIME_NANOS,
        None => false,
    }
}

struct TokenEntry {
    key: String,
    username: String,
    issued_at: SystemTime,
}

/// The tokens that were issued and not revoked, each stored under the digest of its text.
pub struct TokenStore {
    entries: Vec<TokenEntry>,
    holders: Ghost<Map<Seq<char>, Seq<char>>>,
}

impl View for TokenStore {
    type V = Map<Seq<char>, Seq<char>>;

    /// For each stored key, the user the token was issued to.
    closed spec fn view(&self) -> Map<Seq<char>, Seq<char>> {
        self.holders@
    }
}

impl TokenStore {
    /// The entries and the view agree, and no key is stored twice.
    pub closed spec fn wf(&self) -> bool {
        &&& forall|i: int, j: int|
            0 <= i < j < self.entries@.len() ==> self.entries@[i].key@ != self.entries@[j].key@
        &&& forall|i: int|
            0 <= i < self.entries@.len() ==> self.holders@.contains_key(#[trigger] self.entries@[i].key@)
                && self.holders@[self.entries@[i].key@] == self.entries@[i].username@
        &&& forall|k: Seq<char>|
            self.holders@.contains_key(k) ==> exists|i: int|
                0 <= i < self.entries@.len() && #[trigger] self.entries@[i].key@ == k
    }

    /// No token.
    pub fn new() -> (r: Self)
        ensures
            r.wf(),
            r@ == Map::<Seq<char>, Seq<char>>::empty(),
    {
        TokenStore { entries: Vec::new(), holders: Ghost(Map::empty()) }
    }

    /// Where the entry stored under `key` stands, if one is.
    fn position(&self, key: &str) -> (r: Option<usize>)
        requires
            self.wf(),
        ensures
            match r {
                Some(i) => i < self.entries@.len() && self.entries@[i as int].key@ == key@,
                None => !self@.contains_key(key@),
            },
    {
        let mut i: usize = 0;
        while i < self.entries.len()
            invariant
                i <= self.entries@.len(),
                forall|k: int| 0 <= k < i ==> self.entries@[k].key@ != key@,
            decreases self.entries@.len() - i,
        {
            if text_eq(self.entries[i].key.as_str(), key) {
                return Some(i);
            }
            i += 1;
        }
        None
    }

    /// Issues a fresh token to `username` and stores it under its digest.
    pub fn issue(&mut self, username: String) -> (r: Token)
        requires
            old(self).wf(),
        ensures
            final(self).wf(),
            final(self)@ == old(self)@.insert(token_key(r.0@), username@),
            r.0@.len() == 64,
            exists|b: Seq<u8>| b.len() == 32 && r.0@ == #[trigger] hex_of(b),
    {
        let token = Token::generate();
        let key = hash_token(&token);
        let ghost k = key@;
        let ghost u = username@;
        let entry = TokenEntry { key: key.clone(), username, issued_at: now() };
        match self.position(key.as_str()) {
            Some(i) => {
                let ghost before = self.entries@;
                self.entries.set(i, entry);
                proof {
                    self.holders@ = self.holders@.insert(k, u);
                    assert forall|j: int| 0 <= j < self.entries@.len() implies
                        self.holders@.contains_key(#[trigger] self.entries@[j].key@)
                            && self.holders@[self.entries@[j].key@] == self.entries@[j].username@ by {
                        if j != i {
                            assert(before[j].key@ != k);
                        }
                    }
                    assert forall|kk: Seq<char>| self.holders@.contains_key(kk) implies exists|j: int|
                        0 <= j < self.entries@.len() && #[trigger] self.entries@[j].key@ == kk by {
                        if kk == k {
                            assert(self.entries@[i as int].key@ == kk);
                        } else {
                            let j = choose|j: int| 0 <= j < before.len() && #[trigger] before[j].key@ == kk;
                            assert(self.entries@[j].key@ == kk);
                        }
                    }
                }
            },
            None => {
                let ghost before = self.entries@;
                self.entries.push(entry);
                proof {
                    self.holders@ = self.holders@.insert(k, u);
                    let n = before.len() as int;
                    assert forall|a: int, b: int| 0 <= a < b < self.entries@.len() implies
                        self.entries@[a].key@ != self.entries@[b].key@ by {
                        if b == n {
                            assert(old(self).holders@.contains_key(before[a].key@));
                        }
                    }
                    assert forall|j: int| 0 <= j < self.entries@.len() implies
                        self.holders@.contains_key(#[trigger] self.entries@[j].key@)
                            && self.holders@[self.entries@[j].key@] == self.entries@[j].username@ by {
                        if j < n {
                            assert(old(self).holders@.contains_key(before[j].key@));
                            assert(before[j].key@ != k);
                        }
                    }
                    assert forall|kk: Seq<char>| self.holders@.contains_key(kk) implies exists|j: int|
                        0 <= j < self.entries@.len() && #[trigger] self.entries@[j].key@ == kk by {
                        if kk == k {
                            assert(self.entries@[n].key@ == kk);
                        } else {
                            let j = choose|j: int| 0 <= j < before.len() && #[trigger] before[j].key@ == kk;
                            assert(self.entries@[j].key@ == kk);
                        }
                    }
                }
            },
        }
        token
    }

    /// The user `token` was issued to, where it is stored and was issued `elapsed`
    /// nanoseconds ago, at most a day; `None` otherwise.
    pub fn resolve_at(&self, token: &Token, elapsed: Option<u128>) -> (r: Option<String>)
        requires
            self.wf(),
        ensures
            (r is Some) == (self@.contains_key(token_key(token.0@)) && still_valid(elapsed)),
            r matches Some(n) ==> n@ == self@[token_key(token.0@)],
            name_of(r) == resolved(self@, token.0@, elapsed),
    {
        let key = hash_token(token);
        match self.position(key.as_str()) {
            Some(i) => {
                if token_still_valid(elapsed) {
                    Some(self.entries[i].username.clone())
                } else {
                    None
                }
            },
            None => None,
        }
    }

    /// The user `token` was issued to, while it is stored and not older than a day: the
    /// answer of `resolve_at` for the time elapsed since the token was issued, as the clock
    /// gives it (`None` where the clock went backwards).
    pub fn resolve_username(&self, token: &Token) -> (r: Option<String>)
        requires
            self.wf(),
        ensures
            !self@.contains_key(token_key(token.0@)) ==> r is None,
            r matches Some(name) ==> self@.contains_key(token_key(token.0@))
                && name@ == self@[token_key(token.0@)],
            exists|e: Option<u128>| name_of(r) == #[trigger] resolved(self@, token.0@, e),
    {
        let key = hash_token(token);
        match self.position(key.as_str()) {
            Some(i) => {
                let elapsed = elapsed_nanos(&self.entries[i].issued_at);
                let r = self.resolve_at(token, elapsed);
                assert(name_of(r) == resolved(self@, token.0@, elapsed));
                r
            },
            None => {
                assert(name_of(None) == resolved(self@, token.0@, None));
                None
            },
        }
    }

    /// Forgets `token`.
    pub fn revoke(&mut self, token: &Token)
        requires
            old(self).wf(),
        ensures
            final(self).wf(),
            final(self)@ == old(self)@.remove(token_key(token.0@)),
    {
        let key = hash_token(token);
        let ghost k = key@;
        match self.position(key.as_str()) {
            Some(i) => {
                let ghost before = self.entries@;
                let _gone = self.entries.remove(i);
                proof {
                    self.holders@ = self.holders@.remove(k);
                    assert forall|a: int, b: int| 0 <= a < b < self.entries@.len() implies
                        self.entries@[a].key@ != self.entries@[b].key@ by {
                        let a0 = if a < i { a } else { a + 1 };
                        let b0 = if b < i { b } else { b + 1 };
                        assert(self.entries@[a] == before[a0]);
                        assert(self.entries@[b] == before[b0]);
                    }
                    assert forall|j: int| 0 <= j < self.entries@.len() implies
                        self.holders@.contains_key(#[trigger] self.entries@[j].key@)
                            && self.holders@[self.entries@[j].key@] == self.entries@[j].username@ by {
                        let j0 = if j < i { j } else { j + 1 };
                        assert(self.entries@[j] == before[j0]);
                        assert(before[j0].key@ != before[i as int].key@);
                        assert(old(self).holders@.contains_key(before[j0].key@));
                    }
                    assert forall|kk: Seq<char>| self.holders@.contains_key(kk) implies exists|j: int|
                        0 <= j < self.entries@.len() && #[trigger] self.entries@[j].key@ == kk by {
                        let j0 = choose|j: int| 0 <= j < before.len() && #[trigger] before[j].key@ == kk;
                        assert(j0 != i);
                        let j = if j0 < i { j0 } else { j0 - 1 };
                        assert(self.entries@[j].key@ == kk);
                    }
                }
            },
            None => {
                assert(self@ =~= old(self)@.remove(k));
            },
        }
    }

    /// Forgets every token issued to `username`.
    pub fn revoke_all_for(&mut self, username: &str)
        requires
            old(self).wf(),
        ensures
            final(self).wf(),
            final(self)@ == without_user(old(self)@, username@),
    {
        let ghost m = self.holders@;
        let mut rest: Vec<TokenEntry> = Vec::new();
        std::mem::swap(&mut rest, &mut self.entries);
        let ghost orig = rest@;
        let ghost target = Map::new(
            |k: Seq<char>| m.contains_key(k) && m[k] != username@,
            |k: Seq<char>| m[k],
        );
        assert(self.entries@.len() == 0);
        while rest.len() > 0
            invariant
                rest@ == orig.subrange(0, rest@.len() as int),
                rest@.len() <= orig.len(),
                forall|i: int, j: int|
                    0 <= i < j < orig.len() ==> orig[i].key@ != orig[j].key@,
                forall|i: int| 0 <= i < orig.len() ==> m.contains_key(#[trigger] orig[i].key@)
                    && m[orig[i].key@] == orig[i].username@,
                forall|k: Seq<char>| m.contains_key(k) ==> exists|i: int|
                    0 <= i < orig.len() && #[trigger] orig[i].key@ == k,
                forall|a: int, b: int|
                    0 <= a < b < self.entries@.len() ==> self.entries@[a].key@ != self.entries@[b].key@,
                forall|a: int| 0 <= a < self.entries@.len() ==> exists|j: int|
                    rest@.len() <= j < orig.len() && orig[j].key@ == #[trigger] self.entries@[a].key@
                        && orig[j].username@ == self.entries@[a].username@,
                forall|a: int| 0 <= a < self.entries@.len() ==> #[trigger] self.entries@[a].username@ != username@,
                forall|j: int| rest@.len() <= j < orig.len() && orig[j].username@ != username@
                    ==> exists|a: int| 0 <= a < self.entries@.len() && #[trigger] self.entries@[a].key@ == orig[j].key@,
            decreases rest@.len(),
        {
            let ghost before = self.entries@;
            let ghost n = rest@.len() - 1;
            let e = rest.pop().unwrap();
            assert(e == orig[n]);
            if !text_eq(e.username.as_str(), username) {
                self.entries.push(e);
                proof {
                    assert forall|a: int, b: int| 0 <= a < b < self.entries@.len() implies
                        self.entries@[a].key@ != self.entries@[b].key@ by {
                        if b == before.len() {
                            let j = choose|j: int| n + 1 <= j < orig.len() && orig[j].key@ == #[trigger] before[a].key@
                                && orig[j].username@ == before[a].username@;
                            assert(orig[n].key@ != orig[j].key@);
                        }
                    }
                    assert forall|a: int| 0 <= a < self.entries@.len() implies exists|j: int|
                        rest@.len() <= j < orig.len() && orig[j].key@ == #[trigger] self.entries@[a].key@
                            && orig[j].username@ == self.entries@[a].username@ by {
                        if a == before.len() {
                            assert(orig[n].key@ == self.entries@[a].key@);
                        } else {
                            assert(self.entries@[a] == before[a]);
                        }
                    }
                    assert forall|j: int| rest@.len() <= j < orig.len() && orig[j].username@ != username@ implies
                        exists|a: int| 0 <= a < self.entries@.len() && #[trigger] self.entries@[a].key@ == orig[j].key@ by {
                        if j == n {
                            assert(self.entries@[before.len() as int].key@ == orig[j].key@);
                        } else {
                            let a = choose|a: int| 0 <= a < before.len() && #[trigger] before[a].key@ == orig[j].key@;
                            assert(self.entries@[a] == before[a]);
                        }
                    }
                }
            } else {
                proof {
                    assert forall|j: int| rest@.len() <= j < orig.len() && orig[j].username@ != username@ implies
                        exists|a: int| 0 <= a < self.entries@.len() && #[trigger] self.entries@[a].key@ == orig[j].key@ by {
                        assert(j != n);
                    }
                }
            }
        }
        proof {
            self.holders@ = target;
            assert forall|j: int| 0 <= j < self.entries@.len() implies
                self.holders@.contains_key(#[trigger] self.entries@[j].key@)
                    && self.holders@[self.entries@[j].key@] == self.entries@[j].username@ by {
                let i = choose|i: int| 0 <= i < orig.len() && orig[i].key@ == #[trigger] self.entries@[j].key@
                    && orig[i].username@ == self.entries@[j].username@;
                assert(m.contains_key(orig[i].key@));
            }
            assert forall|kk: Seq<char>| self.holders@.contains_key(kk) implies exists|j: int|
                0 <= j < self.entries@.len() && #[trigger] self.entries@[j].key@ == kk by {
                let i = choose|i: int| 0 <= i < orig.len() && #[trigger] orig[i].key@ == kk;
                assert(orig[i].username@ != username@);
            }
        }
    }
}

} // verus!

verus! {

/// The tokens held after `revoke_all_for(user)` on a store holding `held`.
pub open spec fn without_user(held: Map<Seq<char>, Seq<char>>, user: Seq<char>) -> Map<Seq<char>, Seq<char>> {
    Map::new(|k: Seq<char>| held.contains_key(k) && held[k] != user, |k: Seq<char>| held[k])
}

/// A token issued to `user` resolves to `user`; once revoked it resolves to nobody; issuing or
/// revoking one token leaves every other token as it was.
pub proof fn lemma_issue_then_revoke(held: Map<Seq<char>, Seq<char>>, token: Seq<char>, user: Seq<char>, other: Seq<char>)
    requires
        other != token_key(token),
    ensures
        held.insert(token_key(token), user).contains_key(token_key(token)),
        held.insert(token_key(token), user)[token_key(token)] == user,
        !held.insert(token_key(token), user).remove(token_key(token)).contains_key(token_key(token)),
        !held.remove(token_key(token)).contains_key(token_key(token)),
        held.insert(token_key(token), user).contains_key(other) == held.contains_key(other),
        held.remove(token_key(token)).contains_key(other) == held.contains_key(other),
        held.contains_key(other) ==> held.insert(token_key(token), user)[other] == held[other]
            && held.remove(token_key(token))[other] == held[other],
{
}

/// After all tokens of `user` are revoked, no token resolves to `user`, and every token of
/// another user still resolves as before.
pub proof fn lemma_revoke_all_for(held: Map<Seq<char>, Seq<char>>, user: Seq<char>, k: Seq<char>)
    ensures
        without_user(held, user).contains_key(k) ==> without_user(held, user)[k] != user,
        held.contains_key(k) && held[k] != user ==> without_user(held, user).contains_key(k)
            && without_user(held, user)[k] == held[k],
        without_user(held, user).contains_key(k) ==> held.contains_key(k),
{
}

/// A token resolves to its user right after it is issued, while it is still valid; other
/// tokens resolve as before (barring two texts with one digest).
pub proof fn lemma_issue_then_resolve(
    held: Map<Seq<char>, Seq<char>>,
    token: Seq<char>,
    user: Seq<char>,
    other: Seq<char>,
    e: Option<u128>,
)
    requires
        token_key(other) != token_key(token),
    ensures
        still_valid(e) ==> resolved(held.insert(token_key(token), user), token, e) == Some(user),
        !still_valid(e) ==> resolved(held.insert(token_key(token), user), token, e) is None,
        resolved(held.insert(token_key(token), user), other, e) == resolved(held, other, e),
{
}

/// A revoked token no longer resolves; every other token resolves as before.
pub proof fn lemma_revoke_then_resolve(
    held: Map<Seq<char>, Seq<char>>,
    token: Seq<char>,
    other: Seq<char>,
    e: Option<u128>,
)
    requires
        token_key(other) != token_key(token),
    ensures
        resolved(held.remove(token_key(token)), token, e) is None,
        resolved(held.remove(token_key(token)), other, e) == resolved(held, other, e),
{
}

/// After all of a user's tokens are revoked, none of them resolves, and every other token
/// resolves as before.
pub proof fn lemma_revoke_all_then_resolve(held: Map<Seq<char>, Seq<char>>, user: Seq<char>, t: Seq<char>, e: Option<u128>)
    ensures
        resolved(without_user(held, user), t, e) == (if resolved(held, t, e) == Some(user) {
            None
        } else {
            resolved(held, t, e)
        }),
{
    lemma_revoke_all_for(held, user, token_key(t));
}

} // verus!
