//! PKCS#7 padding: `n` trailing bytes, each of value `n`, with `n` in
//! `1..=block_size`.

use vstd::prelude::*;

use super::{PaddingStrategy, PaddingValidationError};

verus! {

/// Number of padding bytes for data of length `len`: never zero, a whole
/// block when `len` is already aligned.
pub open spec fn pad_count(len: nat, block_size: nat) -> nat
    recommends
        block_size > 0,
{
    (block_size - len % block_size) as nat
}

/// `data` followed by its PKCS#7 padding.
pub open spec fn pkcs7_pad(data: Seq<u8>, block_size: nat) -> Seq<u8>
    recommends
        block_size > 0,
{
    let p = pad_count(data.len(), block_size);
    data + Seq::new(p, |_i: int| p as u8)
}

/// The parameters that padding can be applied with.
pub open spec fn pad_params_ok(data: Seq<u8>, block_size: nat) -> bool {
    data.len() > 0 && 0 < block_size <= 255
}

/// The parameters that padding can be stripped with: as for applying it, and
/// the data fills whole blocks.
pub open spec fn strip_params_ok(data: Seq<u8>, block_size: nat) -> bool {
    pad_params_ok(data, block_size) && data.len() % block_size == 0
}

/// The last byte `p` of `data` is in `1..=block_size` and the last `p` bytes
/// all equal `p`.
pub open spec fn padding_ok(data: Seq<u8>, block_size: nat) -> bool {
    let p = data.last() as int;
    &&& data.len() > 0
    &&& 0 < p <= block_size
    &&& p <= data.len()
    &&& forall|i: int| data.len() - p <= i < data.len() ==> data[i] == p
}

/// `data` without as many trailing bytes as its last byte says.
pub open spec fn unpadded(data: Seq<u8>) -> Seq<u8> {
    data.subrange(0, data.len() - data.last() as int)
}

/// Stripping succeeds on `data`.
pub open spec fn strip_succeeds(data: Seq<u8>, block_size: nat) -> bool {
    strip_params_ok(data, block_size) && padding_ok(data, block_size)
}

/// `e` is the error that stripping `data` with `block_size` reports.
pub open spec fn strip_error(data: Seq<u8>, block_size: nat, e: PaddingValidationError) -> bool {
    match e {
        PaddingValidationError::ParameterError(_) => !strip_params_ok(data, block_size),
        PaddingValidationError::PaddingError(_) => strip_params_ok(data, block_size) && !padding_ok(data, block_size),
        _ => false,
    }
}

/// `r` is the outcome of stripping `data` with `block_size`.
pub open spec fn strip_outcome(data: Seq<u8>, block_size: nat, r: Result<Vec<u8>, PaddingValidationError>) -> bool {
    match r {
        Ok(v) => strip_succeeds(data, block_size) && v@ == unpadded(data),
        Err(e) => strip_error(data, block_size, e),
    }
}

/// Padding then stripping gives the data back: padded data fills whole
/// blocks, its padding is valid, and removing it leaves the original.
pub proof fn lemma_pad_strip_round_trip(data: Seq<u8>, block_size: nat)
    requires
        pad_params_ok(data, block_size),
    ensures
        pkcs7_pad(data, block_size).len() % block_size == 0,
        strip_succeeds(pkcs7_pad(data, block_size), block_size),
        unpadded(pkcs7_pad(data, block_size)) == data,
{
    let p = pad_count(data.len(), block_size);
    let padded = pkcs7_pad(data, block_size);
    assert(padded.len() == data.len() + p);
    let n = data.len() as int;
    let b = block_size as int;
    assert((n + (b - n % b)) % b == 0) by {
        vstd::arithmetic::div_mod::lemma_fundamental_div_mod(n, b);
        let q = n / b;
        assert(n + (b - n % b) == (q + 1) * b) by (nonlinear_arith)
            requires
                n == b * q + n % b,
        ;
        vstd::arithmetic::div_mod::lemma_mod_multiples_basic(q + 1, b);
    }
    assert(padded.last() == p as u8);
    assert(p as u8 == p);
    assert(padded.subrange(0, padded.len() - p) =~= data);
}

/// Stripping is refused when the last byte `p` is zero or exceeds the block
/// size, or when one of the last `p` bytes differs from `p`.
pub proof fn lemma_strip_rejects_bad_padding(data: Seq<u8>, block_size: nat)
    requires
        data.len() > 0,
        data.last() == 0 || data.last() > block_size || exists|i: int|
            0 <= i < data.len() && data.len() - data.last() <= i && #[trigger] data[i] != data.last(),
    ensures
        !strip_succeeds(data, block_size),
{
}

/// A fresh vector holding the first `len` bytes of `data`.
fn copy_prefix(data: &[u8], len: usize) -> (r: Vec<u8>)
    requires
        len <= data@.len(),
    ensures
        r@ == data@.subrange(0, len as int),
{
    let mut r: Vec<u8> = Vec::with_capacity(len);
    let mut i: usize = 0;
    while i < len
        invariant
            i <= len <= data@.len(),
            r@ =~= data@.subrange(0, i as int),
        decreases len - i,
    {
        r.push(data[i]);
        i = i + 1;
    }
    r
}

/// PKCS#7 padding.
pub struct Pkcs7Padding;

/// Relies on std's `format!` to render the rejected padding value in decimal.
#[verifier::external_body]
fn out_of_range_message(padding_value: u8) -> String {
    format!("Padding value must be greater than 0 and not greater than block size. Found: {}", padding_value)
}

impl PaddingStrategy for Pkcs7Padding {
    /// Appends `p` bytes of value `p`, `p = block_size - len % block_size`.
    /// Fails when `data` is empty or `block_size` is not in `1..=255`.
    fn apply_padding(&self, data: &[u8], block_size: u32) -> (r: Result<Vec<u8>, PaddingValidationError>)
        ensures
            pad_params_ok(data@, block_size as nat) <==> r is Ok,
            r matches Ok(v) ==> v@ == pkcs7_pad(data@, block_size as nat),
            r matches Err(e) ==> e is ParameterError,
    {
        if data.len() == 0 {
            return Err(PaddingValidationError::ParameterError("Data must not be empty"));
        }
        if block_size == 0 || block_size > 255 {
            return Err(PaddingValidationError::ParameterError(
                "Block size must be greater than 0 and smaller than 256",
            ));
        }
        let padding_value: u32 = block_size - (data.len() % (block_size as usize)) as u32;
        let p: u8 = padding_value as u8;
        let mut padded_data: Vec<u8> = copy_prefix(data, data.len());
        let ghost head = data@;
        let mut i: u32 = 0;
        while i < padding_value
            invariant
                padding_value == pad_count(head.len(), block_size as nat),
                p == padding_value,
                i <= padding_value,
                padded_data@ =~= head + Seq::new(i as nat, |_j: int| p),
            decreases padding_value - i,
        {
            padded_data.push(p);
            i = i + 1;
        }
        Ok(padded_data)
    }

    /// Removes the padding after checking it. Fails with a parameter error
    /// unless `data` is non-empty, `block_size` is in `1..=255` and divides
    /// the length, and with a padding error when the padding is malformed.
    fn strip_padding(&self, data: &[u8], block_size: u32) -> (r: Result<Vec<u8>, PaddingValidationError>)
        ensures
            strip_outcome(data@, block_size as nat, r),
    {
        if data.len() == 0 {
            return Err(PaddingValidationError::ParameterError("Data must not be empty"));
        }
        if block_size == 0 || block_size > 255 {
            return Err(PaddingValidationError::ParameterError(
                "Block size must be greater than 0 and smaller than 256",
            ));
        }
        if data.len() % (block_size as usize) != 0 {
            return Err(PaddingValidationError::ParameterError(
                "Data length must be a multiple of block size",
            ));
        }
        proof {
            vstd::arithmetic::div_mod::lemma_mod_is_zero(data@.len() as nat, block_size as nat);
        }
        match self.validate_padding(data, block_size as u8) {
            Err(e) => Err(e),
            Ok(()) => {
                let padding_value = data[data.len() - 1];
                let keep: usize = data.len() - padding_value as usize;
                let unpadded_data: Vec<u8> = copy_prefix(data, keep);
                assert(unpadded_data@ =~= unpadded(data@));
                Ok(unpadded_data)
            }
        }
    }

    /// Succeeds exactly when the padding at the end of `data` is well formed
    /// for `block_size`; otherwise reports a padding error.
    fn validate_padding(&self, data: &[u8], block_size: u8) -> (r: Result<(), PaddingValidationError>)
        ensures
            padding_ok(data@, block_size as nat) <==> r is Ok,
            r matches Err(e) ==> e is PaddingError,
    {
        let padding_value: u8 = data[data.len() - 1];
        if padding_value == 0 || padding_value > block_size || padding_value as usize > data.len() {
            return Err(PaddingValidationError::PaddingError(out_of_range_message(padding_value)));
        }
        let padding_start: usize = data.len() - padding_value as usize;
        let mut i: usize = padding_start;
        while i < data.len()
            invariant
                padding_start <= i <= data@.len(),
                padding_start == data@.len() - padding_value,
                data@.len() > 0,
                padding_value == data@.last(),
                forall|j: int| padding_start <= j < i ==> data@[j] == padding_value,
            decreases data@.len() - i,
        {
            if data[i] != padding_value {
                assert(data@.last() == padding_value);
                return Err(PaddingValidationError::PaddingError("Padding content is invalid".to_owned()));
            }
            i = i + 1;
        }
        Ok(())
    }
}

} // verus!
