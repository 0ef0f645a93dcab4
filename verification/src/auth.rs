//! Passwords, their hashes, and challenge tokens.

use rand::Rng;
use vstd::prelude::*;

use crate::text::chars_of;

verus! {

/// The least length of an administrator's password, in characters.
pub const MIN_PASSWORD_LEN: usize = 12;

/// The length of a generated password.
pub const GENERATED_LEN: usize = 40;

/// The cost with which passwords are hashed.
pub const HASH_COST: u32 = 10;

/// The number of characters that a generated password is drawn from.
pub const CHARSET_LEN: usize = 64;

/// The characters that a generated password is drawn from, by number: the capital letters, the
/// small letters, `1` to `9`, `0`, `-` and `_`.
pub open spec fn charset(i: int) -> char {
    if i < 26 {
        (65 + i) as char
    } else if i < 52 {
        (97 + (i - 26)) as char
    } else if i < 61 {
        (49 + (i - 52)) as char
    } else if i == 61 {
        '0'
    } else if i == 62 {
        '-'
    } else {
        '_'
    }
}

/// The character of number `i`.
fn charset_char(i: usize) -> (res: char)
    requires
        i < CHARSET_LEN,
    ensures
        res == charset(i as int),
{
    if i < 26 {
        (65 + i as u8) as char
    } else if i < 52 {
        (97 + (i as u8 - 26)) as char
    } else if i < 61 {
        (49 + (i as u8 - 52)) as char
    } else if i == 61 {
        '0'
    } else if i == 62 {
        '-'
    } else {
        '_'
    }
}

/// Calls `Rng::gen_range(0..n)` of the `rand` crate on its thread's generator: some number below
/// `n`.
#[verifier::external_body]
fn random_below(n: usize) -> (res: usize)
    requires
        n > 0,
    ensures
        res < n,
{
    rand::thread_rng().gen_range(0..n)
}

/// The password whose characters have the given numbers.
pub fn password_from(numbers: &Vec<usize>) -> (res: String)
    requires
        forall|i: int| 0 <= i < numbers@.len() ==> #[trigger] numbers@[i] < CHARSET_LEN,
    ensures
        res@ == Seq::new(numbers@.len(), |i: int| charset(numbers@[i] as int)),
{
    let mut res = String::new();
    let mut i: usize = 0;
    while i < numbers.len()
        invariant
            i <= numbers@.len(),
            forall|k: int| 0 <= k < numbers@.len() ==> #[trigger] numbers@[k] < CHARSET_LEN,
            res@ == Seq::new(i as nat, |k: int| charset(numbers@[k] as int)),
        decreases numbers@.len() - i,
    {
        res.push(charset_char(numbers[i]));
        i = i + 1;
    }
    res
}

/// A password of `length` random characters of the [`charset`].
pub fn generate_password(length: usize) -> (res: String)
    ensures
        res@.len() == length,
        forall|i: int| 0 <= i < length ==> is_token_char(#[trigger] res@[i]),
{
    let mut numbers: Vec<usize> = Vec::new();
    let mut i: usize = 0;
    while i < length
        invariant
            i <= length,
            numbers@.len() == i,
            forall|k: int| 0 <= k < numbers@.len() ==> #[trigger] numbers@[k] < CHARSET_LEN,
        decreases length - i,
    {
        numbers.push(random_below(CHARSET_LEN));
        i = i + 1;
    }
    proof {
        assert forall|k: int| 0 <= k < length implies is_token_char(
            charset(#[trigger] numbers@[k] as int),
        ) by {
            law_charset_is_token_alphabet(charset(numbers@[k] as int));
        }
    }
    password_from(&numbers)
}

/// What checking a password against a hash gives: whether it matches, or nothing if the hash is
/// malformed.
pub uninterp spec fn bcrypt_matches(password: Seq<char>, hash: Seq<char>) -> Option<bool>;

/// Calls `bcrypt::verify` and drops the reason of a failure. The result is a function of the two
/// texts.
#[verifier::external_body]
fn bcrypt_verify(password: &str, hash: &str) -> (res: Option<bool>)
    ensures
        res == bcrypt_matches(password@, hash@),
{
    bcrypt::verify(password, hash).ok()
}

/// A bcrypt hash in the `2b` format, made with `cost`: the version, the cost in two digits, and
/// 53 characters of salt and digest.
pub open spec fn is_bcrypt_hash(hash: Seq<char>, cost: u32) -> bool {
    &&& hash.len() == 60
    &&& hash.take(7) == seq![
        '$',
        '2',
        'b',
        '$',
        crate::text::digit(cost as nat / 10),
        crate::text::digit(cost as nat % 10),
        '$',
    ]
}

/// Calls `bcrypt::hash`. Where it succeeds, the result has the format of a hash of that cost and
/// the password matches it. The salt is random, and the system may fail to give one; the failure
/// is then returned in words.
#[verifier::external_body]
pub(crate) fn bcrypt_hash(password: &str, cost: u32) -> (res: Result<String, String>)
    requires
        4 <= cost <= 31,
    ensures
        res matches Ok(hash) ==> bcrypt_matches(password@, hash@) == Some(true),
        res matches Ok(hash) ==> is_bcrypt_hash(hash@, cost),
{
    bcrypt::hash(password, cost).map_err(|e| e.to_string())
}

/// Whether a password matches a hash; it does not match a malformed one.
pub fn correct_password(password: &str, hash: &str) -> (res: bool)
    ensures
        res == (bcrypt_matches(password@, hash@) == Some(true)),
{
    match bcrypt_verify(password, hash) {
        Some(b) => b,
        None => false,
    }
}

/// Spends the time of checking a password against a well-formed hash of the usual cost.
fn spend_check(hash: &str)
    requires
        is_bcrypt_hash(hash@, HASH_COST),
{
    let _ = bcrypt_verify("dummy_password_for_timing_eq", hash);
}

/// Spends as long as the check of a password does. To call this where a user is not found hides
/// from the client which of the two happened: the hash that is checked here has the format and
/// the cost of a stored one.
pub fn dummy_verify() {
    let hash = "$2b$10$......................21jzCB1r6pN6rp5O2Ev0ejjTAboskKm";
    proof {
        reveal_strlit("$2b$10$......................21jzCB1r6pN6rp5O2Ev0ejjTAboskKm");
        assert(crate::text::digit(1) == '1');
        assert(crate::text::digit(0) == '0');
        assert(hash@.take(7) == seq!['$', '2', 'b', '$', '1', '0', '$']);
    }
    spend_check(hash);
}

/// The characters of Base64 for URLs.
pub open spec fn is_token_char(c: char) -> bool {
    ||| 'A' <= c <= 'Z'
    ||| 'a' <= c <= 'z'
    ||| '0' <= c <= '9'
    ||| c == '-'
    ||| c == '_'
}

/// The tokens of the DNS-01 challenge: 43 characters of Base64 for URLs.
pub open spec fn is_acme_token(s: Seq<char>) -> bool {
    &&& s.len() == 43
    &&& forall|i: int| 0 <= i < s.len() ==> is_token_char(#[trigger] s[i])
}

/// Decides [`is_acme_token`].
pub fn is_valid_acme_token(s: &str) -> (res: bool)
    ensures
        res == is_acme_token(s@),
{
    let v = chars_of(s);
    if v.len() != 43 {
        return false;
    }
    let mut i: usize = 0;
    while i < v.len()
        invariant
            i <= v@.len(),
            v@ == s@,
            forall|k: int| 0 <= k < i ==> is_token_char(#[trigger] v@[k]),
        decreases v@.len() - i,
    {
        let c: char = v[i];
        if !(('A' <= c && c <= 'Z') || ('a' <= c && c <= 'z') || ('0' <= c && c <= '9') || c == '-'
            || c == '_') {
            return false;
        }
        i = i + 1;
    }
    true
}

/// The characters that passwords are drawn from are those of challenge tokens.
pub proof fn law_charset_is_token_alphabet(c: char)
    ensures
        is_token_char(c) <==> (exists|i: int| 0 <= i < CHARSET_LEN && c == #[trigger] charset(i)),
{
    if is_token_char(c) {
        let n = c as int;
        let i = if 'A' <= c <= 'Z' {
            n - 65
        } else if 'a' <= c <= 'z' {
            n - 97 + 26
        } else if '1' <= c <= '9' {
            n - 49 + 52
        } else if c == '0' {
            61
        } else if c == '-' {
            62
        } else {
            63
        };
        assert(charset(i) == c);
    }
}

/// A text is a challenge token if and only if it has 43 characters and each is an ASCII letter, a
/// digit, a hyphen or an underscore.
pub proof fn law_tokens(s: &str, res: bool)
    requires
        call_ensures(is_valid_acme_token, (s,), res),
    ensures
        res <==> s@.len() == 43 && forall|i: int|
            0 <= i < s@.len() ==> ('a' <= #[trigger] s@[i] <= 'z' || 'A' <= s@[i] <= 'Z' || '0'
                <= s@[i] <= '9' || s@[i] == '-' || s@[i] == '_'),
{
    if s@.len() == 43 {
        if res {
            assert forall|i: int| 0 <= i < s@.len() implies ('a' <= #[trigger] s@[i] <= 'z' || 'A'
                <= s@[i] <= 'Z' || '0' <= s@[i] <= '9' || s@[i] == '-' || s@[i] == '_') by {
                assert(is_token_char(s@[i]));
            }
        }
        if forall|i: int|
            0 <= i < s@.len() ==> ('a' <= #[trigger] s@[i] <= 'z' || 'A' <= s@[i] <= 'Z' || '0'
                <= s@[i] <= '9' || s@[i] == '-' || s@[i] == '_') {
            assert forall|i: int| 0 <= i < s@.len() implies is_token_char(#[trigger] s@[i]) by {}
        }
    }
}

/// A password has a character for each number, different numbers give different characters, and
/// every ASCII letter, digit, hyphen and underscore has a number; so a generated one of a length has
/// that many of these and can be any text of them.
pub proof fn law_passwords(
    numbers: &Vec<usize>,
    res: String,
    length: usize,
    generated: String,
    c: char,
    i: int,
    j: int,
)
    requires
        forall|k: int| 0 <= k < numbers@.len() ==> #[trigger] numbers@[k] < 64,
        call_ensures(password_from, (numbers,), res),
        call_ensures(generate_password, (length,), generated),
        0 <= i < numbers@.len(),
        0 <= j < numbers@.len(),
    ensures
        res@.len() == numbers@.len(),
        res@[i] == res@[j] <==> numbers@[i] == numbers@[j],
        'a' <= res@[i] <= 'z' || 'A' <= res@[i] <= 'Z' || '0' <= res@[i] <= '9' || res@[i] == '-'
            || res@[i] == '_',
        generated@.len() == length,
        0 <= i < length ==> ('a' <= generated@[i] <= 'z' || 'A' <= generated@[i] <= 'Z' || '0'
            <= generated@[i] <= '9' || generated@[i] == '-' || generated@[i] == '_'),
        'a' <= c <= 'z' || 'A' <= c <= 'Z' || '0' <= c <= '9' || c == '-' || c == '_' ==> exists|
            n: int,
        |
            0 <= n < 64 && #[trigger] charset(n) == c,
{
    law_charset_is_token_alphabet(c);
    law_charset_is_token_alphabet(res@[i]);
    assert(res@[i] == charset(numbers@[i] as int));
    assert(res@[j] == charset(numbers@[j] as int));
    if 0 <= i < length {
        assert(is_token_char(generated@[i]));
    }
}

/// A password is right only if the hash is well-formed and it matches it.
pub proof fn law_right_passwords(password: &str, hash: &str, res: bool)
    requires
        call_ensures(correct_password, (password, hash), res),
    ensures
        bcrypt_matches(password@, hash@) is None ==> !res,
        bcrypt_matches(password@, hash@) is Some ==> res == bcrypt_matches(
            password@,
            hash@,
        )->Some_0,
{
}

} // verus!
