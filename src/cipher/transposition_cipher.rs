//! Keyed columnar transposition cipher over padded data.
//!
//! The padded plaintext is laid out in rows of `key.len()` columns. Columns
//! are read out, top to bottom, in the order of their key bytes, ties kept
//! in column order. A column's place in that order is its rank: the number
//! of columns that come before it.

use vstd::prelude::*;
use vstd::set_lib::{lemma_int_range, lemma_map_size, lemma_subset_equality, set_int_range};

use super::{base64_standard, encode_base64, CipherOperationError, EncryptionAlgorithm};
use crate::padding::pkcs7::{
    lemma_pad_strip_round_trip, pad_params_ok, pkcs7_pad, strip_error, strip_succeeds, unpadded,
    Pkcs7Padding,
};
use crate::padding::PaddingStrategy;

verus! {

/// Column `d` is read before column `c`: a smaller key byte, or an equal one
/// at an earlier position.
pub open spec fn key_before(key: Seq<u8>, d: int, c: int) -> bool {
    key[d] < key[c] || (key[d] == key[c] && d < c)
}

/// How many of the columns `0..m` are read before column `c`.
pub open spec fn count_before(key: Seq<u8>, c: int, m: int) -> nat
    decreases m,
{
    if m <= 0 {
        0
    } else {
        count_before(key, c, m - 1) + if key_before(key, m - 1, c) { 1nat } else { 0nat }
    }
}

/// The position of column `c` in the reading order.
pub open spec fn key_rank(key: Seq<u8>, c: int) -> nat {
    count_before(key, c, key.len() as int)
}

/// The column read in position `j`.
pub open spec fn column_at(key: Seq<u8>, j: int) -> int {
    choose|c: int| 0 <= c < key.len() && key_rank(key, c) == j
}

/// Byte `(i, j)` of `data` laid out in rows of `width`, zero past the end.
pub open spec fn matrix_cell(data: Seq<u8>, width: nat, i: int, j: int) -> u8 {
    if i * width + j < data.len() {
        data[i * width + j]
    } else {
        0
    }
}

/// Reads `padded`, laid out in rows of `key.len()`, column by column in key
/// order.
pub open spec fn transpose(padded: Seq<u8>, key: Seq<u8>) -> Seq<u8> {
    let n = key.len() as int;
    let rows = padded.len() as int / n;
    Seq::new(padded.len(), |i: int| padded[(i % rows) * n + column_at(key, i / rows)])
}

/// Puts each byte of `encrypted` back in its row and column, row-major.
pub open spec fn untranspose(encrypted: Seq<u8>, key: Seq<u8>) -> Seq<u8> {
    let n = key.len() as int;
    let rows = encrypted.len() as int / n;
    Seq::new(encrypted.len(), |i: int| encrypted[key_rank(key, i % n) * rows + i / n])
}

/// The ciphertext of `plain` under `key`.
pub open spec fn transposition_encrypt(plain: Seq<u8>, key: Seq<u8>) -> Seq<u8> {
    transpose(pkcs7_pad(plain, key.len()), key)
}

/// `r` is what decryption returns for the rearranged bytes `flat`.
pub open spec fn decrypt_outcome(flat: Seq<u8>, n: nat, r: Result<Vec<u8>, CipherOperationError>) -> bool {
    match r {
        Ok(v) => strip_succeeds(flat, n) && v@ == unpadded(flat),
        Err(CipherOperationError::PaddingValidationError(e)) => strip_error(flat, n, e),
        Err(_) => false,
    }
}

proof fn lemma_count_bound(key: Seq<u8>, c: int, m: int)
    requires
        0 <= c < key.len(),
        0 <= m <= key.len(),
    ensures
        count_before(key, c, m) <= m,
        c < m ==> count_before(key, c, m) < m,
    decreases m,
{
    if m > 0 {
        lemma_count_bound(key, c, m - 1);
    }
}

proof fn lemma_count_monotone(key: Seq<u8>, d: int, c: int, m: int)
    requires
        0 <= d < key.len(),
        0 <= c < key.len(),
        0 <= m <= key.len(),
        key_before(key, d, c),
    ensures
        count_before(key, d, m) + (if d < m { 1int } else { 0int }) <= count_before(key, c, m),
    decreases m,
{
    if m > 0 {
        lemma_count_monotone(key, d, c, m - 1);
    }
}

/// Every rank is a position of the key.
pub proof fn lemma_rank_bound(key: Seq<u8>, c: int)
    requires
        0 <= c < key.len(),
    ensures
        key_rank(key, c) < key.len(),
{
    lemma_count_bound(key, c, key.len() as int);
}

/// A column read before another has the smaller rank.
pub proof fn lemma_rank_order(key: Seq<u8>, d: int, c: int)
    requires
        0 <= d < key.len(),
        0 <= c < key.len(),
    ensures
        key_before(key, d, c) <==> key_rank(key, d) < key_rank(key, c),
{
    if key_before(key, d, c) {
        lemma_count_monotone(key, d, c, key.len() as int);
    } else if d != c {
        lemma_count_monotone(key, c, d, key.len() as int);
    }
}

/// Distinct columns have distinct ranks.
pub proof fn lemma_rank_injective(key: Seq<u8>, d: int, c: int)
    requires
        0 <= d < key.len(),
        0 <= c < key.len(),
        d != c,
    ensures
        key_rank(key, d) != key_rank(key, c),
{
    lemma_rank_order(key, d, c);
    lemma_rank_order(key, c, d);
}

/// Each position `j` of the key is the rank of exactly one column,
/// `column_at(key, j)`.
pub proof fn lemma_column_at(key: Seq<u8>, j: int)
    requires
        0 <= j < key.len(),
    ensures
        0 <= column_at(key, j) < key.len(),
        key_rank(key, column_at(key, j)) == j,
{
    let n = key.len() as int;
    let cols = set_int_range(0, n);
    let f = |c: int| key_rank(key, c) as int;
    lemma_int_range(0, n);
    assert(vstd::relations::injective_on(f, cols)) by {
        assert forall|a: int, b: int| cols.contains(a) && cols.contains(b) && #[trigger] f(a) == #[trigger] f(b)
            implies a == b by {
            if a != b {
                lemma_rank_injective(key, a, b);
            }
        }
    }
    lemma_map_size(cols, cols.map(f), f);
    assert(cols.map(f).subset_of(cols)) by {
        assert forall|x: int| #[trigger] cols.map(f).contains(x) implies cols.contains(x) by {
            let c = choose|c: int| cols.contains(c) && f(c) == x;
            lemma_rank_bound(key, c);
        }
    }
    lemma_subset_equality(cols.map(f), cols);
    assert(cols.map(f).contains(j));
    let c = choose|c: int| cols.contains(c) && f(c) == j;
    assert(0 <= c < n && key_rank(key, c) == j);
}

/// The column read in the position of column `c`'s rank is `c`.
pub proof fn lemma_column_of_rank(key: Seq<u8>, c: int)
    requires
        0 <= c < key.len(),
    ensures
        column_at(key, key_rank(key, c) as int) == c,
{
    let j = key_rank(key, c) as int;
    assert(0 <= c < key.len() && key_rank(key, c) == j);
    let d = column_at(key, j);
    if d != c {
        lemma_rank_injective(key, d, c);
    }
}

/// The column indices `0..key.len()` in reading order: ascending key byte,
/// equal bytes in column order.
pub fn get_sorted_key_indices(key: &[u8]) -> (r: Vec<usize>)
    ensures
        r@.len() == key@.len(),
        forall|j: int| 0 <= j < key@.len() ==> #[trigger] r@[j] < key@.len(),
        forall|j: int| 0 <= j < key@.len() ==> #[trigger] r@[j] as int == column_at(key@, j),
        forall|j: int| 0 <= j < key@.len() ==> key_rank(key@, #[trigger] r@[j] as int) == j,
        forall|j: int, k: int| 0 <= j < k < key@.len() ==> key_before(key@, #[trigger] r@[j] as int, #[trigger] r@[k] as int),
{
    let n = key.len();
    let mut order: Vec<usize> = Vec::with_capacity(n);
    while order.len() < n
        invariant
            order@.len() <= n,
        decreases n - order@.len(),
    {
        order.push(0);
    }
    let mut c: usize = 0;
    while c < n
        invariant
            n == key@.len(),
            c <= n,
            order@.len() == n,
            forall|d: int| 0 <= d < c ==> order@[#[trigger] key_rank(key@, d) as int] == d,
        decreases n - c,
    {
        let mut rank: usize = 0;
        let mut d: usize = 0;
        while d < n
            invariant
                n == key@.len(),
                c < n,
                d <= n,
                rank == count_before(key@, c as int, d as int),
                rank <= d,
            decreases n - d,
        {
            if key[d] < key[c] || (key[d] == key[c] && d < c) {
                rank = rank + 1;
            }
            d = d + 1;
        }
        proof {
            lemma_rank_bound(key@, c as int);
        }
        let ghost prev = order@;
        order.set(rank, c);
        proof {
            assert forall|d: int| 0 <= d < c + 1 implies order@[#[trigger] key_rank(key@, d) as int] == d by {
                if d < c {
                    lemma_rank_injective(key@, d, c as int);
                    lemma_rank_bound(key@, d);
                    assert(prev[key_rank(key@, d) as int] == d);
                }
            }
        }
        c = c + 1;
    }
    proof {
        assert forall|j: int| 0 <= j < n implies #[trigger] order@[j] as int == column_at(key@, j) by {
            lemma_column_at(key@, j);
            let cj = column_at(key@, j);
            assert(order@[key_rank(key@, cj) as int] == cj);
        }
        assert forall|j: int, k: int| 0 <= j < k < n implies key_before(key@, #[trigger] order@[j] as int, #[trigger] order@[k] as int) by {
            lemma_column_at(key@, j);
            lemma_column_at(key@, k);
            lemma_rank_order(key@, order@[j] as int, order@[k] as int);
        }
        assert forall|j: int| 0 <= j < n implies key_rank(key@, #[trigger] order@[j] as int) == j by {
            lemma_column_at(key@, j);
        }
        assert forall|j: int| 0 <= j < n implies #[trigger] order@[j] < n by {
            lemma_column_at(key@, j);
        }
    }
    order
}

/// `i * n + c` splits back into row `i` and column `c`.
proof fn lemma_row_col(i: int, c: int, n: int, rows: int)
    requires
        0 <= i < rows,
        0 <= c < n,
    ensures
        0 <= i * n + c < rows * n,
        (i * n + c) / n == i,
        (i * n + c) % n == c,
{
    assert(0 <= i * n + c < rows * n) by (nonlinear_arith)
        requires
            0 <= i < rows,
            0 <= c < n,
    ;
    vstd::arithmetic::div_mod::lemma_fundamental_div_mod_converse(i * n + c, n, i, c);
}

/// `data` in rows of `column_size` bytes; an incomplete last row is filled
/// with zeros.
pub fn create_transposition_matrix(data: &[u8], column_size: usize) -> (r: Vec<Vec<u8>>)
    requires
        column_size > 0,
    ensures
        r@.len() * column_size >= data@.len(),
        r@.len() == 0 || (r@.len() - 1) * column_size < data@.len(),
        forall|i: int| 0 <= i < r@.len() ==> (#[trigger] r@[i])@.len() == column_size,
        forall|i: int, j: int|
            0 <= i < r@.len() && 0 <= j < column_size ==> #[trigger] r@[i]@[j] == matrix_cell(
                data@,
                column_size as nat,
                i,
                j,
            ),
{
    let mut matrix: Vec<Vec<u8>> = Vec::new();
    let mut start: usize = 0;
    let mut done: bool = data.len() == 0;
    assert(matrix@.len() * column_size == 0);
    while !done
        invariant
            column_size > 0,
            start <= data@.len(),
            !done ==> start < data@.len(),
            !done ==> start == matrix@.len() * column_size,
            done ==> matrix@.len() * column_size >= data@.len(),
            done ==> (matrix@.len() == 0 || (matrix@.len() - 1) * column_size < data@.len()),
            forall|i: int| 0 <= i < matrix@.len() ==> (#[trigger] matrix@[i])@.len() == column_size,
            forall|i: int, j: int|
                0 <= i < matrix@.len() && 0 <= j < column_size ==> #[trigger] matrix@[i]@[j]
                    == matrix_cell(data@, column_size as nat, i, j),
        decreases data@.len() - start + (if done { 0int } else { 1int }),
    {
        let remaining: usize = data.len() - start;
        let mut row: Vec<u8> = Vec::with_capacity(column_size);
        let mut j: usize = 0;
        while j < column_size
            invariant
                start + remaining == data@.len(),
                data@.len() <= usize::MAX,
                start == matrix@.len() * column_size,
                j <= column_size,
                row@.len() == j,
                forall|k: int| 0 <= k < j ==> #[trigger] row@[k] == matrix_cell(
                    data@,
                    column_size as nat,
                    matrix@.len() as int,
                    k,
                ),
            decreases column_size - j,
        {
            if j < remaining {
                row.push(data[start + j]);
            } else {
                row.push(0);
            }
            j = j + 1;
        }
        let ghost rows_before = matrix@.len() as int;
        matrix.push(row);
        proof {
            assert((rows_before + 1) * column_size == rows_before * column_size + column_size) by (nonlinear_arith);
        }
        if remaining <= column_size {
            done = true;
        } else {
            start = start + column_size;
        }
    }
    matrix
}

/// Transposition cipher: pads with its padding strategy, then reads the
/// rows of key width column by column in key order.
pub struct TranspositionCipher {
    padding_strategy: Pkcs7Padding,
}

impl TranspositionCipher {
    /// A cipher that pads with `padding_strategy`.
    pub fn new(padding_strategy: Pkcs7Padding) -> (r: Self) {
        TranspositionCipher { padding_strategy }
    }

    /// Encrypts and renders the ciphertext as standard base64.
    pub fn encrypt_and_base64(&self, plaintext: &[u8], key: &[u8]) -> (r: Result<String, CipherOperationError>)
        requires
            plaintext@.len() <= isize::MAX,
        ensures
            key@.len() == 0 ==> r == Err::<String, CipherOperationError>(
                CipherOperationError::InvalidKeySize(0),
            ),
            key@.len() > 0 && !pad_params_ok(plaintext@, key@.len()) ==> (r matches Err(
                CipherOperationError::PaddingValidationError(e),
            ) && e is ParameterError),
            key@.len() > 0 && pad_params_ok(plaintext@, key@.len()) ==> (r matches Ok(s) && s@
                == base64_standard(transposition_encrypt(plaintext@, key@))),
    {
        match self.encrypt(plaintext, key) {
            Err(e) => Err(e),
            Ok(msg) => {
                proof {
                    assert(msg@.len() == pkcs7_pad(plaintext@, key@.len()).len());
                }
                Ok(encode_base64(msg.as_slice()))
            },
        }
    }
}

/// The key length as a block length; lengths beyond `u32` saturate, which
/// no padding accepts either way.
fn block_length_of(key_length: usize) -> (r: u32)
    ensures
        r == key_length || (r > 255 && key_length > 255),
{
    if key_length > 4294967295usize {
        4294967295u32
    } else {
        key_length as u32
    }
}

impl EncryptionAlgorithm for TranspositionCipher {
    /// Fails on an empty key, and with a padding parameter error on an empty
    /// plaintext or a key longer than 255 bytes.
    fn encrypt(&self, plaintext: &[u8], key: &[u8]) -> (r: Result<Vec<u8>, CipherOperationError>)
        ensures
            key@.len() == 0 ==> r == Err::<Vec<u8>, CipherOperationError>(
                CipherOperationError::InvalidKeySize(0),
            ),
            key@.len() > 0 && !pad_params_ok(plaintext@, key@.len()) ==> (r matches Err(
                CipherOperationError::PaddingValidationError(e),
            ) && e is ParameterError),
            key@.len() > 0 && pad_params_ok(plaintext@, key@.len()) ==> (r matches Ok(v) && v@
                == transposition_encrypt(plaintext@, key@)),
    {
        if key.len() == 0 {
            return Err(CipherOperationError::InvalidKeySize(0));
        }
        let n: usize = key.len();
        let padded_data = match self.padding_strategy.apply_padding(plaintext, block_length_of(n)) {
            Err(e) => {
                return Err(CipherOperationError::PaddingValidationError(e));
            },
            Ok(v) => v,
        };
        let ghost padded = padded_data@;
        proof {
            lemma_pad_strip_round_trip(plaintext@, n as nat);
        }
        let matrix = create_transposition_matrix(padded_data.as_slice(), n);
        let rows: usize = matrix.len();
        proof {
            let q = padded.len() as int / n as int;
            vstd::arithmetic::div_mod::lemma_fundamental_div_mod(padded.len() as int, n as int);
            assert(rows == q) by (nonlinear_arith)
                requires
                    rows * n >= padded.len(),
                    rows == 0 || (rows - 1) * n < padded.len(),
                    padded.len() == n * q,
                    n > 0,
                    padded.len() > 0,
            ;
            assert(rows * n == padded.len() && rows > 0) by (nonlinear_arith)
                requires
                    rows == q,
                    padded.len() == n * q,
                    padded.len() > 0,
            ;
            vstd::arithmetic::div_mod::lemma_fundamental_div_mod_converse(padded.len() as int, n as int, rows as int, 0);
        }
        let sorted_key_indices = get_sorted_key_indices(key);
        let ghost expected = transpose(padded, key@);
        let mut encrypted_message: Vec<u8> = Vec::with_capacity(padded_data.len());
        let mut j: usize = 0;
        while j < n
            invariant
                n == key@.len(),
                n > 0,
                rows > 0,
                rows * n == padded.len(),
                rows == padded.len() as int / n as int,
                matrix@.len() == rows,
                sorted_key_indices@.len() == n,
                forall|k: int| 0 <= k < n ==> #[trigger] sorted_key_indices@[k] < n,
                forall|k: int| 0 <= k < n ==> #[trigger] sorted_key_indices@[k] as int == column_at(key@, k),
                forall|k: int| 0 <= k < n ==> key_rank(key@, #[trigger] sorted_key_indices@[k] as int) == k,
                forall|i: int| 0 <= i < rows ==> (#[trigger] matrix@[i])@.len() == n,
                forall|i: int, k: int|
                    0 <= i < rows && 0 <= k < n ==> #[trigger] matrix@[i]@[k] == matrix_cell(padded, n as nat, i, k),
                expected == transpose(padded, key@),
                j <= n,
                encrypted_message@.len() == j * rows,
                forall|k: int| 0 <= k < j * rows ==> #[trigger] encrypted_message@[k] == expected[k],
            decreases n - j,
        {
            let c: usize = sorted_key_indices[j];
            proof {
                vstd::arithmetic::mul::lemma_mul_inequality(j as int + 1, n as int, rows as int);
                assert((j + 1) * rows == j * rows + rows) by (nonlinear_arith);
            }
            let mut row: usize = 0;
            while row < rows
                invariant
                    n == key@.len(),
                    rows > 0,
                    rows * n == padded.len(),
                    rows == padded.len() as int / n as int,
                    matrix@.len() == rows,
                    forall|i: int| 0 <= i < rows ==> (#[trigger] matrix@[i])@.len() == n,
                    forall|i: int, k: int|
                        0 <= i < rows && 0 <= k < n ==> #[trigger] matrix@[i]@[k] == matrix_cell(padded, n as nat, i, k),
                    expected == transpose(padded, key@),
                    j < n,
                    c < n,
                    c as int == column_at(key@, j as int),
                    (j + 1) * rows <= n * rows,
                    row <= rows,
                    encrypted_message@.len() == j * rows + row,
                    forall|k: int| 0 <= k < j * rows + row ==> #[trigger] encrypted_message@[k] == expected[k],
                decreases rows - row,
            {
                proof {
                    let k = j * rows + row;
                    vstd::arithmetic::div_mod::lemma_fundamental_div_mod_converse(k, rows as int, j as int, row as int);
                    lemma_row_col(row as int, c as int, n as int, rows as int);
                    assert(k < padded.len()) by (nonlinear_arith)
                        requires
                            k == j * rows + row,
                            row < rows,
                            (j + 1) * rows <= n * rows,
                            rows * n == padded.len(),
                    ;
                    assert(expected[k] == padded[row * n + c]);
                }
                encrypted_message.push(matrix[row][c]);
                row = row + 1;
            }
            j = j + 1;
        }
        proof {
            assert(encrypted_message@ =~= expected);
        }
        Ok(encrypted_message)
    }

    /// Fails on an empty key, on a message length that is not a multiple of
    /// the key length, and where the rearranged bytes do not strip.
    fn decrypt(&self, encrypted_message: &[u8], key: &[u8]) -> (r: Result<Vec<u8>, CipherOperationError>)
        ensures
            key@.len() == 0 ==> r == Err::<Vec<u8>, CipherOperationError>(
                CipherOperationError::InvalidKeySize(0),
            ),
            key@.len() > 0 && encrypted_message@.len() % key@.len() != 0 ==> r == Err::<
                Vec<u8>,
                CipherOperationError,
            >(CipherOperationError::InvalidEncryptedMessageLength),
            key@.len() > 0 && encrypted_message@.len() % key@.len() == 0 ==> decrypt_outcome(
                untranspose(encrypted_message@, key@),
                key@.len(),
                r,
            ),
    {
        if key.len() == 0 {
            return Err(CipherOperationError::InvalidKeySize(0));
        }
        let key_length: usize = key.len();
        if encrypted_message.len() % key_length != 0 {
            return Err(CipherOperationError::InvalidEncryptedMessageLength);
        }
        let num_rows: usize = encrypted_message.len() / key_length;
        let ghost ct = encrypted_message@;
        let ghost n = key_length as int;
        let ghost rows = num_rows as int;
        proof {
            vstd::arithmetic::div_mod::lemma_fundamental_div_mod(ct.len() as int, n);
            assert(rows * n == ct.len()) by (nonlinear_arith)
                requires
                    ct.len() == n * rows + 0,
            ;
        }
        let sorted_key_indices = get_sorted_key_indices(key);
        let mut flattened: Vec<u8> = Vec::with_capacity(encrypted_message.len());
        while flattened.len() < encrypted_message.len()
            invariant
                flattened@.len() <= ct.len(),
                ct == encrypted_message@,
            decreases ct.len() - flattened@.len(),
        {
            flattened.push(0);
        }
        let ghost expected = untranspose(ct, key@);
        let mut index: usize = 0;
        let mut j: usize = 0;
        while j < key_length
            invariant
                n == key_length == key@.len(),
                n > 0,
                ct.len() <= usize::MAX,
                rows == num_rows,
                rows == ct.len() as int / n,
                rows * n == ct.len(),
                ct == encrypted_message@,
                expected == untranspose(ct, key@),
                sorted_key_indices@.len() == n,
                forall|k: int| 0 <= k < n ==> #[trigger] sorted_key_indices@[k] < n,
                forall|k: int| 0 <= k < n ==> key_rank(key@, #[trigger] sorted_key_indices@[k] as int) == k,
                flattened@.len() == ct.len(),
                j <= n,
                index == j * rows,
                forall|i: int|
                    0 <= i < ct.len() && key_rank(key@, i % n) < j ==> #[trigger] flattened@[i] == expected[i],
            decreases n - j,
        {
            let col_index: usize = sorted_key_indices[j];
            proof {
                vstd::arithmetic::mul::lemma_mul_inequality(j as int + 1, n, rows);
                assert((j + 1) * rows == j * rows + rows) by (nonlinear_arith);
            }
            let mut row: usize = 0;
            while row < num_rows
                invariant
                    n == key_length == key@.len(),
                    n > 0,
                    ct.len() <= usize::MAX,
                    rows == num_rows,
                    rows == ct.len() as int / n,
                    rows * n == ct.len(),
                    ct == encrypted_message@,
                    expected == untranspose(ct, key@),
                    flattened@.len() == ct.len(),
                    j < n,
                    col_index < n,
                    key_rank(key@, col_index as int) == j,
                    (j + 1) * rows <= n * rows,
                    row <= rows,
                    index == j * rows + row,
                    forall|i: int|
                        0 <= i < ct.len() && (key_rank(key@, i % n) < j || (key_rank(key@, i % n) == j && i / n
                            < row)) ==> #[trigger] flattened@[i] == expected[i],
                decreases rows - row,
            {
                let ghost prev = flattened@;
                proof {
                    lemma_row_col(row as int, col_index as int, n, rows);
                    assert(index < ct.len()) by (nonlinear_arith)
                        requires
                            index == j * rows + row,
                            row < rows,
                            (j + 1) * rows <= n * rows,
                            rows * n == ct.len(),
                    ;
                }
                let pos: usize = row * key_length + col_index;
                flattened.set(pos, encrypted_message[index]);
                proof {
                    assert forall|i: int|
                        0 <= i < ct.len() && (key_rank(key@, i % n) < j || (key_rank(key@, i % n) == j && i / n
                            < row + 1)) implies #[trigger] flattened@[i] == expected[i] by {
                        if i == pos {
                            assert(expected[i] == ct[key_rank(key@, col_index as int) * rows + row]);
                        } else {
                            if key_rank(key@, i % n) == j && i / n == row {
                                vstd::arithmetic::div_mod::lemma_fundamental_div_mod(i, n);
                                vstd::arithmetic::div_mod::lemma_mod_bound(i, n);
                                if i % n != col_index {
                                    lemma_rank_injective(key@, i % n, col_index as int);
                                }
                                assert(i == row * n + col_index) by (nonlinear_arith)
                                    requires
                                        i == n * (i / n) + i % n,
                                        i / n == row,
                                        i % n == col_index,
                                ;
                            }
                            assert(prev[i] == expected[i]);
                        }
                    }
                }
                index = index + 1;
                row = row + 1;
            }
            proof {
                assert forall|i: int| 0 <= i < ct.len() && key_rank(key@, i % n) == j implies #[trigger] flattened@[i] == expected[i] by {
                    vstd::arithmetic::div_mod::lemma_fundamental_div_mod(i, n);
                    vstd::arithmetic::div_mod::lemma_mod_bound(i, n);
                    assert(i / n < rows) by (nonlinear_arith)
                        requires
                            i == n * (i / n) + i % n,
                            0 <= i % n,
                            i < rows * n,
                            n > 0,
                    ;
                }
            }
            j = j + 1;
        }
        proof {
            assert forall|i: int| 0 <= i < ct.len() implies #[trigger] flattened@[i] == expected[i] by {
                vstd::arithmetic::div_mod::lemma_mod_bound(i, n);
                lemma_rank_bound(key@, i % n);
            }
            assert(flattened@ =~= expected);
        }
        let stripped = self.padding_strategy.strip_padding(flattened.as_slice(), block_length_of(key_length));
        match stripped {
            Ok(v) => Ok(v),
            Err(e) => Err(CipherOperationError::PaddingValidationError(e)),
        }
    }
}

/// Decrypting a ciphertext gives back the plaintext: for a non-empty
/// plaintext and a key of 1 to 255 bytes, the ciphertext fills whole key
/// widths, and its rearranged bytes strip to the plaintext.
pub proof fn lemma_transposition_round_trip(plain: Seq<u8>, key: Seq<u8>)
    requires
        plain.len() > 0,
        0 < key.len() <= 255,
    ensures
        transposition_encrypt(plain, key).len() % key.len() == 0,
        strip_succeeds(untranspose(transposition_encrypt(plain, key), key), key.len()),
        unpadded(untranspose(transposition_encrypt(plain, key), key)) == plain,
{
    let n = key.len() as int;
    let padded = pkcs7_pad(plain, key.len());
    lemma_pad_strip_round_trip(plain, key.len());
    let ct = transpose(padded, key);
    let rows = padded.len() as int / n;
    vstd::arithmetic::div_mod::lemma_fundamental_div_mod(padded.len() as int, n);
    assert(rows * n == padded.len()) by (nonlinear_arith)
        requires
            padded.len() == n * rows + 0,
    ;
    assert forall|i: int| 0 <= i < padded.len() implies #[trigger] untranspose(ct, key)[i] == padded[i] by {
        let c = i % n;
        let row = i / n;
        vstd::arithmetic::div_mod::lemma_fundamental_div_mod(i, n);
        vstd::arithmetic::div_mod::lemma_mod_bound(i, n);
        assert(0 <= row < rows) by (nonlinear_arith)
            requires
                i == n * row + c,
                0 <= c < n,
                0 <= i < rows * n,
        ;
        lemma_rank_bound(key, c);
        lemma_column_of_rank(key, c);
        let k = key_rank(key, c) * rows + row;
        vstd::arithmetic::div_mod::lemma_fundamental_div_mod_converse(k, rows, key_rank(key, c) as int, row);
        assert(0 <= k < rows * n) by (nonlinear_arith)
            requires
                k == key_rank(key, c) * rows + row,
                0 <= key_rank(key, c) < n,
                0 <= row < rows,
        ;
        assert(row * n + c == i) by (nonlinear_arith)
            requires
                i == n * row + c,
        ;
    }
    assert(untranspose(ct, key) =~= padded);
}

/// Encryption depends on the plaintext and the key alone: equal inputs give
/// byte-identical ciphertexts.
pub proof fn lemma_encryption_deterministic(plain1: Seq<u8>, key1: Seq<u8>, plain2: Seq<u8>, key2: Seq<u8>)
    requires
        plain1 == plain2,
        key1 == key2,
    ensures
        transposition_encrypt(plain1, key1) == transposition_encrypt(plain2, key2),
{
}

} // verus!
