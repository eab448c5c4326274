//! Keyed monoalphabetic substitution over a fixed alphabet of upper-case
//! letters, lower-case letters and digits, in that order.

use vstd::prelude::*;

use super::{base64_standard, encode_base64, CipherOperationError, EncryptionAlgorithm};

verus! {

/// `A`..`Z`, `a`..`z`, `0`..`9`.
pub open spec fn alphabet_seq() -> Seq<u8> {
    Seq::new(
        62,
        |i: int|
            (if i < 26 {
                65 + i
            } else if i < 52 {
                97 + (i - 26)
            } else {
                48 + (i - 52)
            }) as u8,
    )
}

/// The position of `b` in the alphabet, or -1 when it is not in it.
pub open spec fn alphabet_pos(b: u8) -> int {
    if 65 <= b <= 90 {
        b - 65
    } else if 97 <= b <= 122 {
        b - 97 + 26
    } else if 48 <= b <= 57 {
        b - 48 + 52
    } else {
        -1
    }
}

/// A byte of the alphabet becomes the key byte at its position; any other
/// byte stays as it is.
pub open spec fn substitute_byte(b: u8, key: Seq<u8>) -> u8 {
    if alphabet_pos(b) >= 0 {
        key[alphabet_pos(b)]
    } else {
        b
    }
}

/// `text` with each byte substituted through `key`.
pub open spec fn substitution(text: Seq<u8>, key: Seq<u8>) -> Seq<u8> {
    text.map_values(|b: u8| substitute_byte(b, key))
}

/// Entry `p` of the inverse of the first `m` bytes of `key`: the alphabet
/// byte at the last position `i < m` whose key byte sits at `p` in the
/// alphabet, or 0 when there is none.
pub open spec fn inverse_entry(key: Seq<u8>, p: int, m: int) -> u8
    decreases m,
{
    if m <= 0 {
        0
    } else if alphabet_pos(key[m - 1]) == p {
        alphabet_seq()[m - 1]
    } else {
        inverse_entry(key, p, m - 1)
    }
}

/// The key that decryption substitutes with.
pub open spec fn inverse_key(key: Seq<u8>) -> Seq<u8> {
    Seq::new(62, |p: int| inverse_entry(key, p, key.len() as int))
}

/// `key` holds each byte of the alphabet exactly once.
pub open spec fn is_alphabet_permutation(key: Seq<u8>) -> bool {
    &&& key.len() == 62
    &&& forall|i: int| 0 <= i < 62 ==> alphabet_pos(#[trigger] key[i]) >= 0
    &&& forall|i: int, j: int| 0 <= i < j < 62 ==> #[trigger] key[i] != #[trigger] key[j]
}

proof fn lemma_alphabet_pos(b: u8)
    ensures
        alphabet_pos(b) < 62,
        alphabet_pos(b) >= 0 ==> alphabet_seq()[alphabet_pos(b)] == b,
        forall|k: int| 0 <= k < 62 && #[trigger] alphabet_seq()[k] == b ==> k == alphabet_pos(b),
{
}

proof fn lemma_inverse_entry(key: Seq<u8>, q: int, m: int)
    requires
        is_alphabet_permutation(key),
        0 <= q < m <= 62,
    ensures
        inverse_entry(key, alphabet_pos(key[q]), m) == alphabet_seq()[q],
    decreases m,
{
    if m - 1 != q {
        let b = key[m - 1];
        let a = key[q];
        assert(b != a);
        lemma_alphabet_pos(a);
        lemma_alphabet_pos(b);
        lemma_inverse_entry(key, q, m - 1);
    }
}

/// Substituting with a permutation of the alphabet and then with its inverse
/// gives the text back; bytes outside the alphabet pass unchanged both ways.
pub proof fn lemma_substitution_round_trip(plain: Seq<u8>, key: Seq<u8>)
    requires
        is_alphabet_permutation(key),
    ensures
        substitution(substitution(plain, key), inverse_key(key)) == plain,
        forall|i: int|
            0 <= i < plain.len() && alphabet_pos(plain[i]) < 0 ==> #[trigger] substitution(plain, key)[i]
                == plain[i],
        forall|b: u8| alphabet_pos(b) < 0 ==> #[trigger] substitute_byte(b, inverse_key(key)) == b,
{
    let enc = substitution(plain, key);
    assert forall|i: int| 0 <= i < plain.len() implies #[trigger] substitution(enc, inverse_key(key))[i]
        == plain[i] by {
        let b = plain[i];
        lemma_alphabet_pos(b);
        if alphabet_pos(b) >= 0 {
            let p = alphabet_pos(b);
            lemma_inverse_entry(key, p, 62);
        }
    }
    assert(substitution(enc, inverse_key(key)) =~= plain);
}

/// Substitution cipher over the fixed alphabet.
pub struct SubstitutionCipher {
    alphabet: Vec<u8>,
}

impl SubstitutionCipher {
    #[verifier::type_invariant]
    spec fn alphabet_is_fixed(self) -> bool {
        self.alphabet@ == alphabet_seq()
    }

    /// The alphabet this cipher substitutes over.
    pub closed spec fn symbols(&self) -> Seq<u8> {
        self.alphabet@
    }

    /// A cipher over `A`..`Z`, `a`..`z`, `0`..`9`.
    pub fn new() -> (r: Self)
        ensures
            r.symbols() == alphabet_seq(),
    {
        let mut alphabet: Vec<u8> = Vec::with_capacity(62);
        let mut b: u8 = 65;
        while b <= 90
            invariant
                65 <= b <= 91,
                alphabet@ =~= alphabet_seq().subrange(0, b - 65),
            decreases 91 - b,
        {
            alphabet.push(b);
            b = b + 1;
        }
        b = 97;
        while b <= 122
            invariant
                97 <= b <= 123,
                alphabet@ =~= alphabet_seq().subrange(0, b - 97 + 26),
            decreases 123 - b,
        {
            alphabet.push(b);
            b = b + 1;
        }
        b = 48;
        while b <= 57
            invariant
                48 <= b <= 58,
                alphabet@ =~= alphabet_seq().subrange(0, b - 48 + 52),
            decreases 58 - b,
        {
            alphabet.push(b);
            b = b + 1;
        }
        assert(alphabet@ =~= alphabet_seq());
        SubstitutionCipher { alphabet }
    }

    /// The number of bytes in the alphabet, which is the key length.
    pub fn alphabet_len(&self) -> (r: usize)
        ensures
            r == alphabet_seq().len(),
    {
        proof {
            use_type_invariant(self);
        }
        self.alphabet.len()
    }

    /// The position of `ch` in the alphabet.
    fn position_of(&self, ch: u8) -> (r: Option<usize>)
        ensures
            r is None <==> alphabet_pos(ch) < 0,
            r matches Some(i) ==> i == alphabet_pos(ch),
    {
        proof {
            use_type_invariant(self);
            lemma_alphabet_pos(ch);
        }
        let mut i: usize = 0;
        while i < self.alphabet.len()
            invariant
                self.alphabet@ == alphabet_seq(),
                i <= 62,
                forall|k: int| 0 <= k < i ==> alphabet_seq()[k] != ch,
            decreases 62 - i,
        {
            if self.alphabet[i] == ch {
                return Some(i);
            }
            i = i + 1;
        }
        None
    }

    /// Replaces each alphabet byte of `text` by the key byte at its position;
    /// other bytes pass unchanged. The key needs a byte for each alphabet
    /// position that `text` uses.
    pub fn substitute(&self, text: &[u8], key: &[u8]) -> (r: Vec<u8>)
        requires
            key@.len() >= alphabet_seq().len() || forall|i: int|
                0 <= i < text@.len() ==> alphabet_pos(#[trigger] text@[i]) < 0,
        ensures
            r@ == substitution(text@, key@),
    {
        let mut result: Vec<u8> = Vec::with_capacity(text.len());
        let mut i: usize = 0;
        while i < text.len()
            invariant
                key@.len() >= 62 || forall|k: int| 0 <= k < text@.len() ==> alphabet_pos(#[trigger] text@[k]) < 0,
                i <= text@.len(),
                result@ =~= substitution(text@.subrange(0, i as int), key@),
            decreases text@.len() - i,
        {
            let ch = text[i];
            match self.position_of(ch) {
                Some(position) => result.push(key[position]),
                None => result.push(ch),
            }
            i = i + 1;
            assert(text@.subrange(0, i as int) =~= text@.subrange(0, i - 1).push(ch));
        }
        assert(text@.subrange(0, text@.len() as int) =~= text@);
        result
    }

    /// Encrypts and renders the ciphertext as standard base64.
    pub fn encrypt_and_base64(&self, plain: &[u8], key: &[u8]) -> (r: Result<String, CipherOperationError>)
        requires
            plain@.len() <= isize::MAX,
        ensures
            key@.len() != 62 ==> r == Err::<String, CipherOperationError>(
                CipherOperationError::InvalidKeySize(key@.len() as usize),
            ),
            key@.len() == 62 ==> (r matches Ok(s) && s@ == base64_standard(substitution(plain@, key@))),
    {
        match self.encrypt(plain, key) {
            Err(e) => Err(e),
            Ok(msg) => Ok(encode_base64(msg.as_slice())),
        }
    }
}

impl EncryptionAlgorithm for SubstitutionCipher {
    /// Fails unless the key is as long as the alphabet.
    fn encrypt(&self, plain: &[u8], key: &[u8]) -> (r: Result<Vec<u8>, CipherOperationError>)
        ensures
            key@.len() != 62 ==> r == Err::<Vec<u8>, CipherOperationError>(
                CipherOperationError::InvalidKeySize(key@.len() as usize),
            ),
            key@.len() == 62 ==> (r matches Ok(v) && v@ == substitution(plain@, key@)),
    {
        if key.len() != self.alphabet_len() {
            return Err(CipherOperationError::InvalidKeySize(key.len()));
        }
        Ok(self.substitute(plain, key))
    }

    /// Fails unless the key is as long as the alphabet; otherwise substitutes
    /// with the inverse of the key.
    fn decrypt(&self, encrypted: &[u8], key: &[u8]) -> (r: Result<Vec<u8>, CipherOperationError>)
        ensures
            key@.len() != 62 ==> r == Err::<Vec<u8>, CipherOperationError>(
                CipherOperationError::InvalidKeySize(key@.len() as usize),
            ),
            key@.len() == 62 ==> (r matches Ok(v) && v@ == substitution(encrypted@, inverse_key(key@))),
    {
        if key.len() != self.alphabet_len() {
            return Err(CipherOperationError::InvalidKeySize(key.len()));
        }
        proof {
            use_type_invariant(self);
        }
        let mut reverse_key: Vec<u8> = Vec::with_capacity(62);
        while reverse_key.len() < 62
            invariant
                reverse_key@.len() <= 62,
                forall|p: int| 0 <= p < reverse_key@.len() ==> #[trigger] reverse_key@[p] == 0,
            decreases 62 - reverse_key@.len(),
        {
            reverse_key.push(0);
        }
        let mut i: usize = 0;
        while i < key.len()
            invariant
                key@.len() == 62,
                self.alphabet@ == alphabet_seq(),
                i <= 62,
                reverse_key@ =~= Seq::new(62, |p: int| inverse_entry(key@, p, i as int)),
            decreases 62 - i,
        {
            match self.position_of(key[i]) {
                Some(position) => reverse_key.set(position, self.alphabet[i]),
                None => {},
            }
            i = i + 1;
        }
        Ok(self.substitute(encrypted, reverse_key.as_slice()))
    }
}

} // verus!
