use vstd::prelude::*;
use vstd::pervasive::unreached;
use vstd::string::StrSliceExecFns;
use vstd::string::StringExecFns;

use crate::errors::SecurityError;
use crate::sql::AttrStore;
use crate::sql::KeyValuePair;
use crate::sql::last_touched_updated;
use crate::sql::NoteStore;
use crate::sql::NoteView;
use crate::sql::SimpleNoteView;
use crate::sql::StoredNote;
use crate::sql::content_idx;
use crate::sql::lemma_content_idx_props;
use crate::sql::lemma_note_idx_props;
use crate::sql::note_idx;
use crate::sql::spec_get;
use crate::utils::lemma_dec_str_value;
use crate::utils::str_eq;
use crate::utils::usize_to_string;

verus! {

/// The password gate allows this many attempts before reporting failure.
pub const MAX_PASSWORD_ATTEMPTS: u32 = 2;

/// The ciphertext that the symmetric cipher produces for a secret and a
/// plaintext.  The cipher derives its key material from the secret alone, so
/// the result is a function of the two arguments.
pub uninterp spec fn cipher_of(key: Seq<char>, text: Seq<char>) -> Seq<char>;

/// The plaintext that the symmetric cipher recovers for a secret and a
/// ciphertext, or `None` where the ciphertext cannot be inverted.
pub uninterp spec fn decipher_of(key: Seq<char>, text: Seq<char>) -> Option<Seq<char>>;

/// Relies on magic_crypt's AES-256 mode (`MagicCrypt256::new` with no explicit
/// IV, then `encrypt_str_to_base64`): key and IV are derived from the secret
/// alone, so the ciphertext depends only on the secret and the plaintext, and
/// `decrypt_base64_to_string` with the same secret inverts it.
#[verifier::external_body]
pub fn encrypt_text(key: &str, text: &str) -> (r: String)
    ensures
        r@ == cipher_of(key@, text@),
        decipher_of(key@, r@) == Some(text@),
{
    let mc = <magic_crypt::MagicCrypt256 as magic_crypt::MagicCryptTrait>::new(key, None::<&[u8]>);
    magic_crypt::MagicCryptTrait::encrypt_str_to_base64(&mc, text)
}

#[verifier::external_type_specification]
#[verifier::external_body]
pub struct ExMagicCryptError(magic_crypt::MagicCryptError);

/// Relies on magic_crypt's AES-256 mode (`MagicCrypt256::new` with no explicit
/// IV, then `decrypt_base64_to_string`): the outcome depends only on the
/// secret and the ciphertext, and is an error exactly where the ciphertext
/// cannot be inverted to a string.
#[verifier::external_body]
fn decrypt_base64(key: &str, text: &str) -> (r: Result<String, magic_crypt::MagicCryptError>)
    ensures
        match r {
            Ok(s) => decipher_of(key@, text@) == Some(s@),
            Err(_) => decipher_of(key@, text@) is None,
        },
{
    let mc = <magic_crypt::MagicCrypt256 as magic_crypt::MagicCryptTrait>::new(key, None::<&[u8]>);
    magic_crypt::MagicCryptTrait::decrypt_base64_to_string(&mc, text)
}

/// Inverts a ciphertext produced by [`encrypt_text`] under the same secret.
/// A ciphertext that cannot be inverted is reported as a decryption failure,
/// never as garbage text.
pub fn decrypt_text(key: &str, text: &str) -> (r: Result<String, SecurityError>)
    ensures
        match r {
            Ok(s) => decipher_of(key@, text@) == Some(s@),
            Err(e) => decipher_of(key@, text@) is None && e == SecurityError::DecryptionFailure,
        },
{
    match decrypt_base64(key, text) {
        Ok(s) => Ok(s),
        Err(_) => Err(SecurityError::DecryptionFailure),
    }
}

/// An ASCII digit or letter.
pub open spec fn is_ascii_alphanumeric_char(c: char) -> bool {
    (48 <= c as int && c as int <= 57) || (65 <= c as int && c as int <= 90) || (97 <= c as int
        && c as int <= 122)
}

/// The password format policy: at least three characters, all of them ASCII
/// digits or letters.  Deliberately permissive; reproduced exactly.
pub open spec fn is_valid_password(s: Seq<char>) -> bool {
    s.len() >= 3 && forall|i: int| 0 <= i < s.len() ==> is_ascii_alphanumeric_char(#[trigger] s[i])
}

/// Whether a candidate password meets the format policy.
pub fn validate_password(password: &str) -> (r: bool)
    ensures
        r == is_valid_password(password@),
{
    let len = password.unicode_len();
    if len < 3 {
        return false;
    }
    let mut i: usize = 0;
    while i < len
        invariant
            len == password@.len(),
            0 <= i <= len,
            forall|j: int| 0 <= j < i ==> is_ascii_alphanumeric_char(#[trigger] password@[j]),
        decreases len - i,
    {
        let c = password.get_char(i);
        let u = c as u32;
        if !((48 <= u && u <= 57) || (65 <= u && u <= 90) || (97 <= u && u <= 122)) {
            return false;
        }
        i += 1;
    }
    true
}

/// Whether a candidate password's fingerprint (the password encrypted under
/// itself) matches the stored fingerprint.
pub fn check_password(password: &str, stored_fingerprint: &str) -> (r: bool)
    ensures
        r == (cipher_of(password@, password@) == stored_fingerprint@),
{
    let encrypted_password = encrypt_text(password, password);
    str_eq(encrypted_password.as_str(), stored_fingerprint)
}

/// One attempt of the password gate: both entries must agree, the candidate
/// must meet the format policy and, where a stored fingerprint is given, the
/// candidate's fingerprint must match it.
pub fn password_attempt_accepted(
    password: &str,
    confirmation: &str,
    stored_fingerprint: Option<&str>,
) -> (r: bool)
    ensures
        r == (password@ == confirmation@ && is_valid_password(password@) && (
        match stored_fingerprint {
            Some(f) => cipher_of(password@, password@) == f@,
            None => true,
        })),
{
    if !str_eq(password, confirmation) {
        return false;
    }
    if !validate_password(password) {
        return false;
    }
    match stored_fingerprint {
        Some(f) => check_password(password, f),
        None => true,
    }
}

/// Relies on uuid's `Uuid::new_v4` and its text form: a freshly drawn random
/// token.  Nothing is assumed of the value.
#[verifier::external_body]
pub(crate) fn new_uuid_string() -> (r: String) {
    uuid::Uuid::new_v4().to_string()
}

/// The value stored under `key`, where one is known to be present.
pub open spec fn stored_attr(rows: Seq<KeyValuePair>, key: Seq<char>) -> Seq<char> {
    spec_get(rows, key)->Some_0
}

/// The boss key that the stored recovery wrapping yields for recovery code
/// `rc`.
pub open spec fn unwrapped_by_recovery(rows: Seq<KeyValuePair>, rc: Seq<char>) -> Seq<char> {
    decipher_of(rc, stored_attr(rows, "recovery_boss_key"@))->Some_0
}

/// None of the four credential rows exists yet: first-run setup can insert
/// them all.
pub open spec fn setup_writes_ok(rows: Seq<KeyValuePair>) -> bool {
    &&& spec_get(rows, "password"@) is None
    &&& spec_get(rows, "recovery_code"@) is None
    &&& spec_get(rows, "boss_key"@) is None
    &&& spec_get(rows, "recovery_boss_key"@) is None
}

/// All four credential rows exist: a rotation can overwrite them all.
pub open spec fn rotate_writes_ok(rows: Seq<KeyValuePair>) -> bool {
    &&& spec_get(rows, "password"@) is Some
    &&& spec_get(rows, "recovery_code"@) is Some
    &&& spec_get(rows, "boss_key"@) is Some
    &&& spec_get(rows, "recovery_boss_key"@) is Some
}

/// The credential rows wrap the boss key `bk` under the password `pw` and the
/// recovery code `rc`, and both wrappings invert to `bk`.  The boss-key
/// plaintext itself is never one of the stored values.
pub open spec fn credentials_wrap(
    rows: Seq<KeyValuePair>,
    pw: Seq<char>,
    rc: Seq<char>,
    bk: Seq<char>,
) -> bool {
    &&& spec_get(rows, "password"@) == Some(cipher_of(pw, pw))
    &&& spec_get(rows, "recovery_code"@) == Some(cipher_of(rc, rc))
    &&& spec_get(rows, "boss_key"@) == Some(cipher_of(pw, bk))
    &&& spec_get(rows, "recovery_boss_key"@) == Some(cipher_of(rc, bk))
    &&& decipher_of(pw, cipher_of(pw, bk)) == Some(bk)
    &&& decipher_of(rc, cipher_of(rc, bk)) == Some(bk)
}

/// Every attribute row other than the four credential rows is untouched.
pub open spec fn other_attrs_unchanged(pre: Seq<KeyValuePair>, post: Seq<KeyValuePair>) -> bool {
    forall|k: Seq<char>|
        k != "password"@ && k != "recovery_code"@ && k != "boss_key"@ && k != "recovery_boss_key"@
            ==> #[trigger] spec_get(post, k) == spec_get(pre, k)
}

/// A completed rotation: the old recovery code unwrapped the stored recovery
/// wrapping, and the same boss key is now wrapped under the new password and
/// the new recovery code.
pub open spec fn rotation_ok(
    pre: Seq<KeyValuePair>,
    post: Seq<KeyValuePair>,
    rrc: Seq<char>,
    pw: Seq<char>,
    new_rc: Seq<char>,
) -> bool {
    &&& rotate_writes_ok(pre)
    &&& decipher_of(rrc, stored_attr(pre, "recovery_boss_key"@)) is Some
    &&& credentials_wrap(post, pw, new_rc, decipher_of(rrc, stored_attr(pre, "recovery_boss_key"@))->Some_0)
    &&& other_attrs_unchanged(pre, post)
}

/// The presented recovery code's fingerprint equals the stored one.
pub open spec fn recovery_fingerprint_matches(rows: Seq<KeyValuePair>, rc: Seq<char>) -> bool {
    spec_get(rows, "recovery_code"@) == Some(cipher_of(rc, rc))
}

proof fn lemma_attr_keys_distinct()
    ensures
        "password"@ != "recovery_code"@,
        "password"@ != "boss_key"@,
        "password"@ != "recovery_boss_key"@,
        "recovery_code"@ != "boss_key"@,
        "recovery_code"@ != "recovery_boss_key"@,
        "boss_key"@ != "recovery_boss_key"@,
        "password"@ != "last_touched"@,
        "recovery_code"@ != "last_touched"@,
        "boss_key"@ != "last_touched"@,
        "recovery_boss_key"@ != "last_touched"@,
{
    reveal_strlit("password");
    reveal_strlit("recovery_code");
    reveal_strlit("boss_key");
    reveal_strlit("recovery_boss_key");
    reveal_strlit("last_touched");
    assert("password"@.len() == 8);
    assert("recovery_code"@.len() == 13);
    assert("boss_key"@.len() == 8);
    assert("recovery_boss_key"@.len() == 17);
    assert("last_touched"@.len() == 12);
    assert("password"@[0] == 'p');
    assert("boss_key"@[0] == 'b');
}

/// Establishes or rotates the credential rows.
///
/// With `update` false this is first-run setup: a fresh boss key and recovery
/// code are drawn, the boss key is wrapped under the password and under the
/// recovery code, and all four rows are inserted.  With `update` true the
/// current recovery code must be supplied; the existing boss key is unwrapped
/// with it, re-wrapped under the new password and a freshly drawn recovery
/// code, and all four rows are overwritten.  Either way the new recovery code
/// is returned so the caller can show it once.
///
/// All preconditions are validated before the first row is written, so a
/// failure leaves the store exactly as it was; there is no transaction
/// primitive underneath to rely on.
fn set_password_rotate(attrs: &mut AttrStore, rrc_string: String, password: &str) -> (r: Result<
    String,
    SecurityError,
>)
    ensures
        match r {
            Ok(rc) => rotation_ok(old(attrs)@, final(attrs)@, rrc_string@, password@, rc@),
            Err(e) => {
                &&& final(attrs)@ == old(attrs)@
                &&& if !rotate_writes_ok(old(attrs)@) {
                    e == SecurityError::AttributeWriteFailure
                } else {
                    &&& e == SecurityError::DecryptionFailure
                    &&& decipher_of(
                        rrc_string@,
                        stored_attr(old(attrs)@, "recovery_boss_key"@),
                    ) is None
                }
            },
        },
{
    proof {
        lemma_attr_keys_distinct();
    }
    {
        let rrc = rrc_string.as_str();
        if attrs.get_value("password").is_none() {
            return Err(SecurityError::AttributeWriteFailure);
        }
        if attrs.get_value("recovery_code").is_none() {
            return Err(SecurityError::AttributeWriteFailure);
        }
        if attrs.get_value("boss_key").is_none() {
            return Err(SecurityError::AttributeWriteFailure);
        }
        let old_recovery_boss_key = match attrs.get_value("recovery_boss_key") {
            Some(v) => v,
            None => {
                return Err(SecurityError::AttributeWriteFailure);
            },
        };
        let old_boss_key = match decrypt_text(rrc, old_recovery_boss_key.as_str()) {
            Ok(b) => b,
            Err(_) => {
                return Err(SecurityError::DecryptionFailure);
            },
        };
        let recovery_code = new_uuid_string();
        let encrypted_password = encrypt_text(password, password);
        let encrypted_recovery_code = encrypt_text(recovery_code.as_str(), recovery_code.as_str());
        let new_boss_key = encrypt_text(password, old_boss_key.as_str());
        let new_recovery_boss_key = encrypt_text(recovery_code.as_str(), old_boss_key.as_str());
        let ok1 = attrs.update_key_value("password", encrypted_password.as_str());
        let ok2 = attrs.update_key_value("recovery_code", encrypted_recovery_code.as_str());
        let ok3 = attrs.update_key_value("boss_key", new_boss_key.as_str());
        let ok4 = attrs.update_key_value("recovery_boss_key", new_recovery_boss_key.as_str());
        assert(ok1 && ok2 && ok3 && ok4);
        Ok(recovery_code)
    }
}

fn set_password_create(attrs: &mut AttrStore, password: &str) -> (r: Result<String, SecurityError>)
    ensures
        match r {
            Ok(rc) => {
                &&& setup_writes_ok(old(attrs)@)
                &&& credentials_wrap(
                    final(attrs)@,
                    password@,
                    rc@,
                    unwrapped_by_recovery(final(attrs)@, rc@),
                )
                &&& other_attrs_unchanged(old(attrs)@, final(attrs)@)
            },
            Err(e) => {
                &&& final(attrs)@ == old(attrs)@
                &&& e == SecurityError::AttributeWriteFailure
                &&& !setup_writes_ok(old(attrs)@)
            },
        },
{
    proof {
        lemma_attr_keys_distinct();
    }
    {
        if attrs.get_value("password").is_some() {
            return Err(SecurityError::AttributeWriteFailure);
        }
        if attrs.get_value("recovery_code").is_some() {
            return Err(SecurityError::AttributeWriteFailure);
        }
        if attrs.get_value("boss_key").is_some() {
            return Err(SecurityError::AttributeWriteFailure);
        }
        if attrs.get_value("recovery_boss_key").is_some() {
            return Err(SecurityError::AttributeWriteFailure);
        }
        let recovery_code = new_uuid_string();
        let raw_boss_key = new_uuid_string();
        let encrypted_password = encrypt_text(password, password);
        let encrypted_recovery_code = encrypt_text(recovery_code.as_str(), recovery_code.as_str());
        let boss_key = encrypt_text(password, raw_boss_key.as_str());
        let recovery_boss_key = encrypt_text(recovery_code.as_str(), raw_boss_key.as_str());
        let ok1 = attrs.add_key_value("password", encrypted_password.as_str());
        let ok2 = attrs.add_key_value("recovery_code", encrypted_recovery_code.as_str());
        let ok3 = attrs.add_key_value("boss_key", boss_key.as_str());
        let ok4 = attrs.add_key_value("recovery_boss_key", recovery_boss_key.as_str());
        assert(ok1 && ok2 && ok3 && ok4);
        assert(unwrapped_by_recovery(attrs@, recovery_code@) == raw_boss_key@);
        assert(credentials_wrap(attrs@, password@, recovery_code@, raw_boss_key@));
        Ok(recovery_code)
    }
}

/// Establishes or rotates the credential rows.
///
/// With `update` false this is first-run setup: a fresh boss key and recovery
/// code are drawn, the boss key is wrapped under the password and under the
/// recovery code, and all four rows are inserted.  With `update` true the
/// current recovery code must be supplied; the existing boss key is unwrapped
/// with it, re-wrapped under the new password and a freshly drawn recovery
/// code, and all four rows are overwritten.  Either way the new recovery code
/// is returned so the caller can show it once.
///
/// All preconditions are validated before the first row is written, so a
/// failure leaves the store exactly as it was; there is no transaction
/// primitive underneath to rely on.
pub fn set_password(
    attrs: &mut AttrStore,
    update: bool,
    raw_recovery_code: Option<String>,
    password: &str,
) -> (r: Result<String, SecurityError>)
    requires
        update ==> raw_recovery_code is Some,
    ensures
        !update ==> match r {
            Ok(rc) => {
                &&& setup_writes_ok(old(attrs)@)
                &&& credentials_wrap(
                    final(attrs)@,
                    password@,
                    rc@,
                    unwrapped_by_recovery(final(attrs)@, rc@),
                )
                &&& other_attrs_unchanged(old(attrs)@, final(attrs)@)
            },
            Err(e) => {
                &&& final(attrs)@ == old(attrs)@
                &&& e == SecurityError::AttributeWriteFailure
                &&& !setup_writes_ok(old(attrs)@)
            },
        },
        update ==> match r {
            Ok(rc) => rotation_ok(
                old(attrs)@,
                final(attrs)@,
                raw_recovery_code->Some_0@,
                password@,
                rc@,
            ),
            Err(e) => {
                &&& final(attrs)@ == old(attrs)@
                &&& if !rotate_writes_ok(old(attrs)@) {
                    e == SecurityError::AttributeWriteFailure
                } else {
                    &&& e == SecurityError::DecryptionFailure
                    &&& decipher_of(
                        raw_recovery_code->Some_0@,
                        stored_attr(old(attrs)@, "recovery_boss_key"@),
                    ) is None
                }
            },
        },
{
    if update {
        let rrc_string = match raw_recovery_code {
            Some(s) => s,
            None => unreached(),
        };
        set_password_rotate(attrs, rrc_string, password)
    } else {
        set_password_create(attrs, password)
    }
}

/// Rotates the password, gated on the current recovery code.
///
/// The presented code's fingerprint must equal the stored one; otherwise the
/// rotation is rejected before any unwrap attempt and nothing changes.  On
/// success the old recovery code's wrapping has been replaced, so the code
/// cannot be used a second time, and the fresh code is returned.
pub fn recovery_reset_password(
    attrs: &mut AttrStore,
    recovery_code: &str,
    new_password: &str,
) -> (r: Result<String, SecurityError>)
    ensures
        match r {
            Ok(rc) => {
                &&& recovery_fingerprint_matches(old(attrs)@, recovery_code@)
                &&& rotation_ok(old(attrs)@, final(attrs)@, recovery_code@, new_password@, rc@)
            },
            Err(e) => {
                &&& final(attrs)@ == old(attrs)@
                &&& if !recovery_fingerprint_matches(old(attrs)@, recovery_code@) {
                    e == SecurityError::InvalidRecoveryCode
                } else if !rotate_writes_ok(old(attrs)@) {
                    e == SecurityError::AttributeWriteFailure
                } else {
                    &&& e == SecurityError::DecryptionFailure
                    &&& decipher_of(
                        recovery_code@,
                        stored_attr(old(attrs)@, "recovery_boss_key"@),
                    ) is None
                }
            },
        },
{
    let saved_code = match attrs.get_value("recovery_code") {
        Some(v) => v,
        None => {
            return Err(SecurityError::InvalidRecoveryCode);
        },
    };
    let encrypted_code = encrypt_text(recovery_code, recovery_code);
    if !str_eq(saved_code.as_str(), encrypted_code.as_str()) {
        return Err(SecurityError::InvalidRecoveryCode);
    }
    set_password(attrs, true, Some(String::from_str(recovery_code)), new_password)
}

/// Unwraps the boss key: the stored wrapping is decrypted with the password.
/// The result is for transient use only; callers must not persist it.
pub fn get_boss_key(password: &str, wrapped_boss_key: &str) -> (r: Result<String, SecurityError>)
    ensures
        match r {
            Ok(s) => decipher_of(password@, wrapped_boss_key@) == Some(s@),
            Err(e) => {
                &&& decipher_of(password@, wrapped_boss_key@) is None
                &&& e == SecurityError::DecryptionFailure
            },
        },
{
    decrypt_text(password, wrapped_boss_key)
}


/// The stored password fingerprint matches the candidate password.
pub open spec fn password_fingerprint_matches(rows: Seq<KeyValuePair>, pw: Seq<char>) -> bool {
    spec_get(rows, "password"@) == Some(cipher_of(pw, pw))
}

/// A boss-key wrapping is stored and the password unwraps it.
pub open spec fn boss_key_available(rows: Seq<KeyValuePair>, pw: Seq<char>) -> bool {
    &&& spec_get(rows, "boss_key"@) is Some
    &&& decipher_of(pw, stored_attr(rows, "boss_key"@)) is Some
}

/// The boss key that the password unwraps from the stored wrapping.
pub open spec fn unwrapped_boss_key(rows: Seq<KeyValuePair>, pw: Seq<char>) -> Seq<char> {
    decipher_of(pw, stored_attr(rows, "boss_key"@))->Some_0
}

/// Encrypts a note's fields: the password is verified against the stored
/// fingerprint, the boss key is unwrapped, and title and body are encrypted
/// under it independently.  An empty title or body is valid and encrypts
/// like any other text.
pub fn encrypt_note(attrs: &AttrStore, password: &str, title: &str, note: &str) -> (r: Result<
    SimpleNoteView,
    SecurityError,
>)
    ensures
        r is Ok <==> (password_fingerprint_matches(attrs@, password@) && boss_key_available(
            attrs@,
            password@,
        )),
        match r {
            Ok(v) => ({
                let bk = unwrapped_boss_key(attrs@, password@);
                &&& v.title@ == cipher_of(bk, title@)
                &&& decipher_of(bk, v.title@) == Some(title@)
                &&& v.body@ == cipher_of(bk, note@)
                &&& decipher_of(bk, v.body@) == Some(note@)
                &&& v.protected == true
                &&& v.content_id@ == "0"@
            }),
            Err(e) => {
                if !password_fingerprint_matches(attrs@, password@) {
                    e == SecurityError::AuthenticationExhausted
                } else {
                    e == SecurityError::DecryptionFailure
                }
            },
        },
{
    let stored_fp = match attrs.get_value("password") {
        Some(v) => v,
        None => {
            return Err(SecurityError::AuthenticationExhausted);
        },
    };
    if !check_password(password, stored_fp.as_str()) {
        return Err(SecurityError::AuthenticationExhausted);
    }
    let wrapped = match attrs.get_value("boss_key") {
        Some(v) => v,
        None => {
            return Err(SecurityError::DecryptionFailure);
        },
    };
    let bk = match get_boss_key(password, wrapped.as_str()) {
        Ok(b) => b,
        Err(e) => {
            return Err(e);
        },
    };
    let encrypted_title = encrypt_text(bk.as_str(), title);
    let encrypted_body = encrypt_text(bk.as_str(), note);
    Ok(
        SimpleNoteView {
            title: encrypted_title,
            body: encrypted_body,
            content_id: String::from_str("0"),
            protected: true,
        },
    )
}

/// Decrypts a note's fields: the inverse of [`encrypt_note`].  A field that
/// cannot be inverted is a decryption failure, never garbage text.
pub fn decrypt_note(attrs: &AttrStore, password: &str, title: &str, note: &str) -> (r: Result<
    SimpleNoteView,
    SecurityError,
>)
    ensures
        r is Ok <==> ({
            let bk = unwrapped_boss_key(attrs@, password@);
            &&& password_fingerprint_matches(attrs@, password@)
            &&& boss_key_available(attrs@, password@)
            &&& decipher_of(bk, title@) is Some
            &&& decipher_of(bk, note@) is Some
        }),
        match r {
            Ok(v) => ({
                let bk = unwrapped_boss_key(attrs@, password@);
                &&& decipher_of(bk, title@) == Some(v.title@)
                &&& decipher_of(bk, note@) == Some(v.body@)
                &&& v.protected == true
                &&& v.content_id@ == "0"@
            }),
            Err(e) => {
                if !password_fingerprint_matches(attrs@, password@) {
                    e == SecurityError::AuthenticationExhausted
                } else {
                    e == SecurityError::DecryptionFailure
                }
            },
        },
{
    let stored_fp = match attrs.get_value("password") {
        Some(v) => v,
        None => {
            return Err(SecurityError::AuthenticationExhausted);
        },
    };
    if !check_password(password, stored_fp.as_str()) {
        return Err(SecurityError::AuthenticationExhausted);
    }
    let wrapped = match attrs.get_value("boss_key") {
        Some(v) => v,
        None => {
            return Err(SecurityError::DecryptionFailure);
        },
    };
    let bk = match get_boss_key(password, wrapped.as_str()) {
        Ok(b) => b,
        Err(e) => {
            return Err(e);
        },
    };
    let unencrypted_title = match decrypt_text(bk.as_str(), title) {
        Ok(t) => t,
        Err(e) => {
            return Err(e);
        },
    };
    let unencrypted_note = match decrypt_text(bk.as_str(), note) {
        Ok(b) => b,
        Err(e) => {
            return Err(e);
        },
    };
    Ok(
        SimpleNoteView {
            title: unencrypted_title,
            body: unencrypted_note,
            content_id: String::from_str("0"),
            protected: true,
        },
    )
}

/// Moves the last-touched pointer to the note just touched, where its id
/// fits the 32-bit row the pointer is kept in; wider ids deliberately leave
/// the pointer where it was.
fn touch_note(attrs: &mut AttrStore, note_id: usize)
    ensures
        last_touched_updated(old(attrs)@, final(attrs)@, note_id as int),
{
    proof {
        lemma_dec_str_value(note_id as nat);
    }
    if note_id <= 2147483647 {
        let rendered = usize_to_string(note_id);
        let _updated = attrs.update_key_value("last_touched", rendered.as_str());
    }
}

/// The note at `id` has been protected: title and body replaced by their
/// encryptions under the unwrapped boss key, the flag set, everything else
/// untouched.
pub open spec fn protect_transition(
    attrs: Seq<KeyValuePair>,
    pre: Seq<StoredNote>,
    post: Seq<StoredNote>,
    pw: Seq<char>,
    id: int,
) -> bool {
    let i = note_idx(pre, id);
    let bk = unwrapped_boss_key(attrs, pw);
    &&& i >= 0
    &&& !pre[i].protected
    &&& password_fingerprint_matches(attrs, pw)
    &&& boss_key_available(attrs, pw)
    &&& post.len() == pre.len()
    &&& (forall|j: int| 0 <= j < pre.len() && j != i ==> post[j] == pre[j])
    &&& post[i].note_id == pre[i].note_id
    &&& post[i].title@ == cipher_of(bk, pre[i].title@)
    &&& decipher_of(bk, post[i].title@) == Some(pre[i].title@)
    &&& post[i].body@ == cipher_of(bk, pre[i].body@)
    &&& decipher_of(bk, post[i].body@) == Some(pre[i].body@)
    &&& post[i].protected == true
    &&& post[i].trashed == pre[i].trashed
    &&& post[i].content_id@ == pre[i].content_id@
}

/// The note at `id` has been unprotected: title and body replaced by their
/// decryptions under the unwrapped boss key, the flag cleared, everything
/// else untouched.
pub open spec fn unprotect_transition(
    attrs: Seq<KeyValuePair>,
    pre: Seq<StoredNote>,
    post: Seq<StoredNote>,
    pw: Seq<char>,
    id: int,
) -> bool {
    let i = note_idx(pre, id);
    let bk = unwrapped_boss_key(attrs, pw);
    &&& i >= 0
    &&& pre[i].protected
    &&& password_fingerprint_matches(attrs, pw)
    &&& boss_key_available(attrs, pw)
    &&& decipher_of(bk, pre[i].title@) is Some
    &&& decipher_of(bk, pre[i].body@) is Some
    &&& post.len() == pre.len()
    &&& (forall|j: int| 0 <= j < pre.len() && j != i ==> post[j] == pre[j])
    &&& post[i].note_id == pre[i].note_id
    &&& post[i].title@ == decipher_of(bk, pre[i].title@)->Some_0
    &&& post[i].body@ == decipher_of(bk, pre[i].body@)->Some_0
    &&& post[i].protected == false
    &&& post[i].trashed == pre[i].trashed
    &&& post[i].content_id@ == pre[i].content_id@
}

/// Protects a note: a no-op where it already is protected, otherwise both
/// fields are encrypted and persisted and the flag is set, in one logical
/// update.  Touching an existing note moves the last-touched pointer,
/// whatever the outcome; on any failure the notes are left exactly as they
/// were.
pub fn protect_note(
    attrs: &mut AttrStore,
    notes: &mut NoteStore,
    password: &str,
    note_id: usize,
) -> (r: Result<(), SecurityError>)
    requires
        old(notes).wf(),
    ensures
        final(notes).wf(),
        note_idx(old(notes)@, note_id as int) >= 0 ==> last_touched_updated(
            old(attrs)@,
            final(attrs)@,
            note_id as int,
        ),
        note_idx(old(notes)@, note_id as int) == -1 ==> final(attrs)@ == old(attrs)@,
        match r {
            Ok(()) => protect_transition(
                old(attrs)@,
                old(notes)@,
                final(notes)@,
                password@,
                note_id as int,
            ),
            Err(e) => {
                &&& final(notes)@ == old(notes)@
                &&& ({
                    let i = note_idx(old(notes)@, note_id as int);
                    if i == -1 {
                        e == SecurityError::NoteNotFound
                    } else if old(notes)@[i].protected {
                        e == SecurityError::NoteAlreadyProtected
                    } else if !password_fingerprint_matches(old(attrs)@, password@) {
                        e == SecurityError::AuthenticationExhausted
                    } else {
                        &&& e == SecurityError::DecryptionFailure
                        &&& !boss_key_available(old(attrs)@, password@)
                    }
                })
            },
        },
{
    let ghost pre = notes@;
    let ghost attrs0 = attrs@;
    let ghost i = note_idx(pre, note_id as int);
    let view = match notes.read_fields(note_id) {
        None => {
            return Err(SecurityError::NoteNotFound);
        },
        Some(v) => v,
    };
    touch_note(attrs, note_id);
    proof {
        lemma_attr_keys_distinct();
        assert(spec_get(attrs@, "password"@) == spec_get(attrs0, "password"@));
        assert(spec_get(attrs@, "boss_key"@) == spec_get(attrs0, "boss_key"@));
    }
    if view.protected {
        return Err(SecurityError::NoteAlreadyProtected);
    }
    let encrypted_note = match encrypt_note(attrs, password, view.title.as_str(), view.body.as_str()) {
        Ok(v) => v,
        Err(e) => {
            return Err(e);
        },
    };
    proof {
        notes.lemma_wf_unique();
        lemma_note_idx_props(pre, note_id as int);
        lemma_content_idx_props(pre, view.content_id@);
        let c = content_idx(pre, view.content_id@);
        if c == -1 {
            assert(pre[i].content_id@ == view.content_id@);
            assert(false);
        }
        if c < i {
            assert(pre[c].content_id@ == pre[i].content_id@);
            assert(false);
        }
        if c > i {
            assert(pre[i].content_id@ == view.content_id@);
            assert(false);
        }
    }
    let ok_title = notes.update_title_by_content_id(view.content_id.as_str(), encrypted_note.title.as_str());
    assert(ok_title);
    proof {
        lemma_note_idx_props(notes@, note_id as int);
        assert(notes@[i].note_id == note_id);
        assert(note_idx(notes@, note_id as int) == i);
    }
    let ok_body = notes.update_note_by_note_id(note_id, encrypted_note.body.as_str());
    assert(ok_body);
    proof {
        lemma_note_idx_props(notes@, note_id as int);
        assert(notes@[i].note_id == note_id);
        assert(note_idx(notes@, note_id as int) == i);
    }
    let ok_flag = notes.update_protected_flag(note_id, true);
    assert(ok_flag);
    Ok(())
}

/// Unprotects a note: a no-op report where it is not protected, otherwise
/// both fields are decrypted and persisted and the flag is cleared.
/// Touching an existing note moves the last-touched pointer, whatever the
/// outcome; a failed decrypt is otherwise read-only — the stored ciphertext
/// is never touched.
pub fn unprotect_note(
    attrs: &mut AttrStore,
    notes: &mut NoteStore,
    password: &str,
    note_id: usize,
) -> (r: Result<(), SecurityError>)
    requires
        old(notes).wf(),
    ensures
        final(notes).wf(),
        note_idx(old(notes)@, note_id as int) >= 0 ==> last_touched_updated(
            old(attrs)@,
            final(attrs)@,
            note_id as int,
        ),
        note_idx(old(notes)@, note_id as int) == -1 ==> final(attrs)@ == old(attrs)@,
        match r {
            Ok(()) => unprotect_transition(
                old(attrs)@,
                old(notes)@,
                final(notes)@,
                password@,
                note_id as int,
            ),
            Err(e) => {
                &&& final(notes)@ == old(notes)@
                &&& ({
                    let i = note_idx(old(notes)@, note_id as int);
                    let bk = unwrapped_boss_key(old(attrs)@, password@);
                    if i == -1 {
                        e == SecurityError::NoteNotFound
                    } else if !old(notes)@[i].protected {
                        e == SecurityError::NoteNotProtected
                    } else if !password_fingerprint_matches(old(attrs)@, password@) {
                        e == SecurityError::AuthenticationExhausted
                    } else {
                        &&& e == SecurityError::DecryptionFailure
                        &&& !(boss_key_available(old(attrs)@, password@) && decipher_of(
                            bk,
                            old(notes)@[i].title@,
                        ) is Some && decipher_of(bk, old(notes)@[i].body@) is Some)
                    }
                })
            },
        },
{
    let ghost pre = notes@;
    let ghost attrs0 = attrs@;
    let ghost i = note_idx(pre, note_id as int);
    let view = match notes.read_fields(note_id) {
        None => {
            return Err(SecurityError::NoteNotFound);
        },
        Some(v) => v,
    };
    touch_note(attrs, note_id);
    proof {
        lemma_attr_keys_distinct();
        assert(spec_get(attrs@, "password"@) == spec_get(attrs0, "password"@));
        assert(spec_get(attrs@, "boss_key"@) == spec_get(attrs0, "boss_key"@));
    }
    if !view.protected {
        return Err(SecurityError::NoteNotProtected);
    }
    let decrypted = match decrypt_note(attrs, password, view.title.as_str(), view.body.as_str()) {
        Ok(v) => v,
        Err(e) => {
            return Err(e);
        },
    };
    proof {
        notes.lemma_wf_unique();
        lemma_note_idx_props(pre, note_id as int);
        lemma_content_idx_props(pre, view.content_id@);
        let c = content_idx(pre, view.content_id@);
        if c == -1 {
            assert(pre[i].content_id@ == view.content_id@);
            assert(false);
        }
        if c < i {
            assert(pre[c].content_id@ == pre[i].content_id@);
            assert(false);
        }
        if c > i {
            assert(pre[i].content_id@ == view.content_id@);
            assert(false);
        }
    }
    let ok_title = notes.update_title_by_content_id(view.content_id.as_str(), decrypted.title.as_str());
    assert(ok_title);
    proof {
        lemma_note_idx_props(notes@, note_id as int);
        assert(notes@[i].note_id == note_id);
        assert(note_idx(notes@, note_id as int) == i);
    }
    let ok_body = notes.update_note_by_note_id(note_id, decrypted.body.as_str());
    assert(ok_body);
    proof {
        lemma_note_idx_props(notes@, note_id as int);
        assert(notes@[i].note_id == note_id);
        assert(note_idx(notes@, note_id as int) == i);
    }
    let ok_flag = notes.update_protected_flag(note_id, false);
    assert(ok_flag);
    Ok(())
}

/// Decrypts a whole batch of protected notes with a single unwrap of the
/// boss key.  The batch aborts, returning the failure, where the password is
/// not accepted or any note cannot be inverted; nothing is written either
/// way.
pub fn decrypt_dump(attrs: &AttrStore, password: &str, notes: &Vec<NoteView>) -> (r: Result<
    Vec<NoteView>,
    SecurityError,
>)
    ensures
        match r {
            Ok(v) => {
                &&& password_fingerprint_matches(attrs@, password@)
                &&& boss_key_available(attrs@, password@)
                &&& v@.len() == notes@.len()
                &&& (forall|k: int|
                    0 <= k < notes@.len() ==> {
                        let bk = unwrapped_boss_key(attrs@, password@);
                        &&& decipher_of(bk, (#[trigger] notes@[k]).title@) == Some(v@[k].title@)
                        &&& decipher_of(bk, notes@[k].body@) == Some(v@[k].body@)
                        &&& v@[k].note_id == notes@[k].note_id
                        &&& v@[k].content_id@ == notes@[k].content_id@
                        &&& v@[k].updated@ == notes@[k].updated@
                        &&& v@[k].created@ == notes@[k].created@
                    })
            },
            Err(e) => {
                if !password_fingerprint_matches(attrs@, password@) {
                    e == SecurityError::AuthenticationExhausted
                } else {
                    &&& e == SecurityError::DecryptionFailure
                    &&& (!boss_key_available(attrs@, password@) || exists|k: int|
                        0 <= k < notes@.len() && (decipher_of(
                            unwrapped_boss_key(attrs@, password@),
                            (#[trigger] notes@[k]).title@,
                        ) is None || decipher_of(
                            unwrapped_boss_key(attrs@, password@),
                            notes@[k].body@,
                        ) is None))
                }
            },
        },
{
    let stored_fp = match attrs.get_value("password") {
        Some(v) => v,
        None => {
            return Err(SecurityError::AuthenticationExhausted);
        },
    };
    if !check_password(password, stored_fp.as_str()) {
        return Err(SecurityError::AuthenticationExhausted);
    }
    let wrapped = match attrs.get_value("boss_key") {
        Some(v) => v,
        None => {
            return Err(SecurityError::DecryptionFailure);
        },
    };
    let boss_key = match get_boss_key(password, wrapped.as_str()) {
        Ok(b) => b,
        Err(e) => {
            return Err(e);
        },
    };
    let n = notes.len();
    let mut decrypted_notes: Vec<NoteView> = Vec::new();
    let mut k: usize = 0;
    while k < n
        invariant
            n == notes@.len(),
            0 <= k <= n,
            password_fingerprint_matches(attrs@, password@),
            boss_key_available(attrs@, password@),
            boss_key@ == unwrapped_boss_key(attrs@, password@),
            decrypted_notes@.len() == k,
            forall|m: int|
                0 <= m < k ==> {
                    let bk = unwrapped_boss_key(attrs@, password@);
                    &&& decipher_of(bk, (#[trigger] notes@[m]).title@) == Some(
                        decrypted_notes@[m].title@,
                    )
                    &&& decipher_of(bk, notes@[m].body@) == Some(decrypted_notes@[m].body@)
                    &&& decrypted_notes@[m].note_id == notes@[m].note_id
                    &&& decrypted_notes@[m].content_id@ == notes@[m].content_id@
                    &&& decrypted_notes@[m].updated@ == notes@[m].updated@
                    &&& decrypted_notes@[m].created@ == notes@[m].created@
                },
        decreases n - k,
    {
        let note = &notes[k];
        let title = match decrypt_text(boss_key.as_str(), note.title.as_str()) {
            Ok(t) => t,
            Err(e) => {
                proof {
                    assert(exists|m: int|
                        0 <= m < notes@.len() && (decipher_of(
                            unwrapped_boss_key(attrs@, password@),
                            (#[trigger] notes@[m]).title@,
                        ) is None || decipher_of(
                            unwrapped_boss_key(attrs@, password@),
                            notes@[m].body@,
                        ) is None)) by {
                        assert(decipher_of(
                            unwrapped_boss_key(attrs@, password@),
                            notes@[k as int].title@,
                        ) is None);
                    }
                }
                return Err(e);
            },
        };
        let body = match decrypt_text(boss_key.as_str(), note.body.as_str()) {
            Ok(b) => b,
            Err(e) => {
                proof {
                    assert(exists|m: int|
                        0 <= m < notes@.len() && (decipher_of(
                            unwrapped_boss_key(attrs@, password@),
                            (#[trigger] notes@[m]).title@,
                        ) is None || decipher_of(
                            unwrapped_boss_key(attrs@, password@),
                            notes@[m].body@,
                        ) is None)) by {
                        assert(decipher_of(
                            unwrapped_boss_key(attrs@, password@),
                            notes@[k as int].body@,
                        ) is None);
                    }
                }
                return Err(e);
            },
        };
        let decrypted_note = NoteView {
            title,
            body,
            note_id: note.note_id,
            content_id: note.content_id.clone(),
            updated: note.updated.clone(),
            created: note.created.clone(),
        };
        decrypted_notes.push(decrypted_note);
        k += 1;
    }
    Ok(decrypted_notes)
}


/// The two wrappings always hold the same boss key: in a store whose
/// credential rows wrap a boss key, unwrapping the boss-key row with the
/// password yields exactly what the recovery code recovers from the recovery
/// row.  [`set_password`] establishes this state on setup and on rotation.
pub proof fn lemma_wrappings_agree(
    rows: Seq<KeyValuePair>,
    pw: Seq<char>,
    rc: Seq<char>,
    bk: Seq<char>,
)
    requires
        credentials_wrap(rows, pw, rc, bk),
    ensures
        decipher_of(pw, stored_attr(rows, "boss_key"@)) == Some(bk),
        decipher_of(rc, stored_attr(rows, "recovery_boss_key"@)) == Some(bk),
        decipher_of(pw, stored_attr(rows, "boss_key"@)) == decipher_of(
            rc,
            stored_attr(rows, "recovery_boss_key"@),
        ),
{
}

/// A rotation re-wraps the same boss key: the new password unwraps exactly
/// the key that the old recovery code unwrapped before the rotation.  And
/// whenever the old and new codes' fingerprints differ, the old recovery
/// code no longer matches the stored fingerprint, so a further rotation
/// rejects it: recovery codes are single-use.
pub proof fn lemma_rotation_preserves_boss_key(
    pre: Seq<KeyValuePair>,
    post: Seq<KeyValuePair>,
    rrc: Seq<char>,
    pw: Seq<char>,
    new_rc: Seq<char>,
)
    requires
        rotation_ok(pre, post, rrc, pw, new_rc),
    ensures
        decipher_of(pw, stored_attr(post, "boss_key"@)) == Some(unwrapped_by_recovery(pre, rrc)),
        cipher_of(rrc, rrc) != cipher_of(new_rc, new_rc) ==> !recovery_fingerprint_matches(
            post,
            rrc,
        ),
{
}

proof fn lemma_note_idx_transfer(s0: Seq<StoredNote>, s1: Seq<StoredNote>, id: int)
    requires
        note_idx(s0, id) >= 0,
        s1.len() == s0.len(),
        forall|j: int| 0 <= j < s0.len() && j != note_idx(s0, id) ==> s1[j] == s0[j],
        s1[note_idx(s0, id)].note_id == s0[note_idx(s0, id)].note_id,
    ensures
        note_idx(s1, id) == note_idx(s0, id),
{
    lemma_note_idx_props(s0, id);
    lemma_note_idx_props(s1, id);
    let i = note_idx(s0, id);
    assert(s1[i].note_id as int == id);
    let i1 = note_idx(s1, id);
    if i1 == -1 {
        assert(s1[i].note_id as int != id);
    } else if i1 < i {
        assert(s1[i1] == s0[i1]);
        assert(s0[i1].note_id as int != id);
    } else if i1 > i {
        assert(s1[i].note_id as int != id);
    }
}

/// Protecting a note and then unprotecting it with the same password
/// restores the original title and body exactly, the protected flag returns
/// to false, and no other note is touched.  The attribute rows may differ
/// between the two calls (the last-touched pointer moves), as long as the
/// password still unwraps the same boss key.
pub proof fn lemma_protect_then_unprotect(
    attrs1: Seq<KeyValuePair>,
    attrs2: Seq<KeyValuePair>,
    s0: Seq<StoredNote>,
    s1: Seq<StoredNote>,
    s2: Seq<StoredNote>,
    pw: Seq<char>,
    id: int,
)
    requires
        protect_transition(attrs1, s0, s1, pw, id),
        unprotect_transition(attrs2, s1, s2, pw, id),
        unwrapped_boss_key(attrs2, pw) == unwrapped_boss_key(attrs1, pw),
    ensures
        s2.len() == s0.len(),
        ({
            let i = note_idx(s0, id);
            &&& 0 <= i < s0.len()
            &&& s2[i].title@ == s0[i].title@
            &&& s2[i].body@ == s0[i].body@
            &&& s2[i].protected == false
            &&& s2[i].trashed == s0[i].trashed
            &&& s2[i].note_id == s0[i].note_id
            &&& s2[i].content_id@ == s0[i].content_id@
        }),
        forall|j: int| 0 <= j < s0.len() && j != note_idx(s0, id) ==> s2[j] == s0[j],
{
    lemma_note_idx_props(s0, id);
    lemma_note_idx_transfer(s0, s1, id);
}

/// After one protect the note is already protected, so a second protect is
/// the reported no-op: by [`protect_note`]'s contract it changes nothing and
/// answers that the note is already encrypted.
pub proof fn lemma_protect_is_idempotent(
    attrs: Seq<KeyValuePair>,
    s0: Seq<StoredNote>,
    s1: Seq<StoredNote>,
    pw: Seq<char>,
    id: int,
)
    requires
        protect_transition(attrs, s0, s1, pw, id),
    ensures
        ({
            let i = note_idx(s1, id);
            &&& 0 <= i < s1.len()
            &&& s1[i].protected
        }),
{
    lemma_note_idx_props(s0, id);
    lemma_note_idx_transfer(s0, s1, id);
}


} // verus!
