//! The sample store: one flat buffer read as rows of equal width.

use vstd::prelude::*;

verus! {

/// A flat buffer cut into rows of `width` values; values past the last full
/// row belong to no row.
pub open spec fn rows<T>(flat: Seq<T>, width: nat) -> Seq<Seq<T>> {
    Seq::new(flat.len() / width, |i: int| flat.subrange(i * width, (i + 1) * width))
}

/// The buffer handed to [`Dataset::build`] cannot be read as the declared
/// number of samples of the declared width.
#[derive(Debug, Clone, Copy)]
pub struct DatasetCreationError;

impl DatasetCreationError {
    /// The text shown to a user for this error.
    pub fn message(&self) -> (text: String)
        ensures
            text@ == "Can't create dataset."@,
    {
        String::from_str("Can't create dataset.")
    }
}

/// A value that is read from four bytes.
pub trait AsBytes: Sized {
    /// Whether `value` is what the four bytes stand for. An implementation
    /// that does not say leaves every value open.
    open spec fn decodes(bytes: Seq<u8>, value: Self) -> bool {
        true
    }

    /// Reads a value from four bytes.
    fn from_bytes(bytes: [u8; 4]) -> (value: Self)
        ensures
            Self::decodes(bytes@, value),
    ;
}

/// The 32-bit word that four bytes spell, least significant byte first.
pub open spec fn le_word(bytes: Seq<u8>) -> u32 {
    (bytes[0] + 0x100 * bytes[1] + 0x1_0000 * bytes[2] + 0x100_0000 * bytes[3]) as u32
}

/// A `u32` is read least significant byte first. A single-precision float
/// stored in little-endian order is read as its bit pattern.
impl AsBytes for u32 {
    open spec fn decodes(bytes: Seq<u8>, value: u32) -> bool {
        value == le_word(bytes)
    }

    fn from_bytes(bytes: [u8; 4]) -> (value: u32) {
        let b0: u32 = bytes[0] as u32;
        let b1: u32 = bytes[1] as u32;
        let b2: u32 = bytes[2] as u32;
        let b3: u32 = bytes[3] as u32;
        b0 + 0x100 * b1 + 0x1_0000 * b2 + 0x100_0000 * b3
    }
}

/// `values` is what a byte string holds: one value for every four bytes, in
/// order. Up to three bytes after the last full group stand for nothing.
pub open spec fn is_decoding<T: AsBytes>(bytes: Seq<u8>, values: Seq<T>) -> bool {
    &&& values.len() == bytes.len() / 4
    &&& forall|i: int|
        0 <= i < values.len() ==> T::decodes(bytes.subrange(4 * i, 4 * i + 4), #[trigger] values[i])
}

/// The words that a byte string holds.
pub open spec fn le_words(bytes: Seq<u8>) -> Seq<u32> {
    Seq::new(bytes.len() / 4, |i: int| le_word(bytes.subrange(4 * i, 4 * i + 4)))
}

/// A byte string has one decoding into words only.
pub proof fn lemma_words_decoding(bytes: Seq<u8>, values: Seq<u32>)
    ensures
        is_decoding(bytes, values) <==> values == le_words(bytes),
{
    if is_decoding(bytes, values) {
        assert(values =~= le_words(bytes));
    }
}

/// `nsamples` samples of `nfeatures` values each, stored back to back in one
/// buffer. Sample `i` occupies the positions `i * nfeatures ..
/// (i + 1) * nfeatures`.
#[derive(Debug)]
pub struct Dataset<T> {
    nfeatures: usize,
    nsamples: usize,
    data: Vec<T>,
}

impl<T> View for Dataset<T> {
    type V = Seq<Seq<T>>;

    /// The samples, in storage order.
    open spec fn view(&self) -> Seq<Seq<T>> {
        rows(self.flat(), self.dim())
    }
}

impl<T> Dataset<T> {
    /// The width of every sample.
    pub closed spec fn dim(&self) -> nat {
        self.nfeatures as nat
    }

    /// The number of samples.
    pub closed spec fn count(&self) -> nat {
        self.nsamples as nat
    }

    /// The backing buffer.
    pub closed spec fn flat(&self) -> Seq<T> {
        self.data@
    }

    /// The shape every dataset has: a positive width, and a buffer that holds
    /// exactly `count()` samples of that width.
    #[verifier::type_invariant]
    pub open spec fn well_formed(&self) -> bool {
        &&& 0 < self.dim() <= usize::MAX
        &&& self.count() <= usize::MAX
        &&& self.flat().len() == self.count() * self.dim()
    }

    /// A well-formed dataset has `count()` samples of `dim()` values each.
    pub proof fn lemma_shape(&self)
        requires
            self.well_formed(),
        ensures
            self@.len() == self.count(),
            forall|i: int| 0 <= i < self.count() ==> (#[trigger] self@[i]).len() == self.dim(),
    {
        lemma_rows_shape(self.flat(), self.dim(), self.count());
    }

    /// Takes ownership of `data` as `nsamples` samples of `nfeatures` values.
    ///
    /// Fails when the width is zero or the buffer does not hold exactly
    /// `nsamples * nfeatures` values.
    pub fn build(data: Vec<T>, nfeatures: usize, nsamples: usize) -> (result: Result<
        Dataset<T>,
        DatasetCreationError,
    >)
        ensures
            result is Ok <==> nfeatures > 0 && data@.len() == nsamples * nfeatures,
            result matches Ok(dataset) ==> {
                &&& dataset.well_formed()
                &&& dataset.flat() == data@
                &&& dataset.dim() == nfeatures
                &&& dataset.count() == nsamples
            },
    {
        if nfeatures == 0 {
            return Err(DatasetCreationError);
        }
        let len = data.len();
        proof {
            lemma_exact_quotient(len as int, nfeatures as int, nsamples as int);
        }
        if len % nfeatures != 0 || len / nfeatures != nsamples {
            return Err(DatasetCreationError);
        }
        Ok(Dataset { nfeatures, nsamples, data })
    }

    /// The width of every sample.
    pub fn nfeatures(&self) -> (d: usize)
        ensures
            d == self.dim(),
            d > 0,
    {
        proof {
            use_type_invariant(self);
        }
        self.nfeatures
    }

    /// The number of samples.
    pub fn nsamples(&self) -> (n: usize)
        ensures
            n == self.count(),
            n == self@.len(),
    {
        proof {
            use_type_invariant(self);
            self.lemma_shape();
        }
        self.nsamples
    }

    /// Sample `index`, or `None` past the last sample.
    pub fn get(&self, index: usize) -> (sample: Option<&[T]>)
        ensures
            sample is Some <==> index < self@.len(),
            sample matches Some(values) ==> values@ == self@[index as int],
    {
        proof {
            use_type_invariant(self);
            self.lemma_shape();
        }
        if index >= self.nsamples {
            return None;
        }
        proof {
            lemma_row_bounds(index as int, self.nsamples as int, self.nfeatures as int);
            assert(self.data@.len() == self.nsamples * self.nfeatures);
            assert(index * self.nfeatures + self.nfeatures <= self.data.len());
        }
        let start = index * self.nfeatures;
        let end = start + self.nfeatures;
        let values = vstd::slice::slice_subrange(self.data.as_slice(), start, end);
        Some(values)
    }

    /// A pass over the samples in storage order. Every call starts a new pass
    /// at the first sample.
    pub fn iter(&self) -> (pass: DatasetIterator<'_, T>)
        ensures
            pass.remaining() == self@,
    {
        proof {
            use_type_invariant(self);
            lemma_exact_quotient(
                self.data@.len() as int,
                self.nfeatures as int,
                self.nsamples as int,
            );
        }
        DatasetIterator::new(self.data.as_slice(), self.nfeatures)
    }
}

impl<T: AsBytes> Dataset<T> {
    /// Reads a dataset from the bytes of a file: every four bytes are one
    /// value, row after row.
    ///
    /// Fails when the width is zero or the bytes do not hold exactly
    /// `nsamples * nfeatures` values.
    pub fn from_bytes(bytes: &[u8], nsamples: usize, nfeatures: usize) -> (result: Result<
        Dataset<T>,
        DatasetCreationError,
    >)
        ensures
            result is Ok <==> nfeatures > 0 && bytes@.len() / 4 == nsamples * nfeatures,
            result matches Ok(dataset) ==> {
                &&& dataset.well_formed()
                &&& is_decoding(bytes@, dataset.flat())
                &&& dataset.dim() == nfeatures
                &&& dataset.count() == nsamples
            },
    {
        let len = bytes.len();
        let words = len / 4;
        let mut data: Vec<T> = Vec::with_capacity(words);
        let mut i: usize = 0;
        while i < words
            invariant
                len == bytes@.len(),
                words == len / 4,
                i <= words,
                data@.len() == i,
                forall|r: int|
                    0 <= r < i ==> T::decodes(
                        bytes@.subrange(4 * r, 4 * r + 4),
                        #[trigger] data@[r],
                    ),
            decreases words - i,
        {
            let at = 4 * i;
            let group: [u8; 4] = [bytes[at], bytes[at + 1], bytes[at + 2], bytes[at + 3]];
            assert(group@ =~= bytes@.subrange(4 * i, 4 * i + 4));
            data.push(T::from_bytes(group));
            i += 1;
        }
        Dataset::build(data, nfeatures, nsamples)
    }
}

/// A pass over the samples of a [`Dataset`]: each call of
/// [`DatasetIterator::next`] hands out the next sample as a window of the
/// dataset's buffer.
pub struct DatasetIterator<'a, T> {
    slice: &'a [T],
    nfeatures: usize,
}

impl<'a, T> DatasetIterator<'a, T> {
    /// The samples not yet handed out, in order.
    pub closed spec fn remaining(&self) -> Seq<Seq<T>> {
        rows(self.slice@, self.nfeatures as nat)
    }

    #[verifier::type_invariant]
    spec fn well_formed(&self) -> bool {
        &&& self.nfeatures > 0
        &&& self.slice@.len() % (self.nfeatures as nat) == 0
    }

    fn new(slice: &'a [T], nfeatures: usize) -> (pass: DatasetIterator<'a, T>)
        requires
            nfeatures > 0,
            slice@.len() % (nfeatures as nat) == 0,
        ensures
            pass.remaining() == rows(slice@, nfeatures as nat),
    {
        DatasetIterator { slice, nfeatures }
    }

    /// Hands out the first remaining sample, or `None` when the pass is over.
    pub fn next(&mut self) -> (item: Option<&'a [T]>)
        ensures
            item is None <==> old(self).remaining().len() == 0,
            item is None ==> final(self).remaining() == old(self).remaining(),
            item matches Some(values) ==> {
                &&& values@ == old(self).remaining()[0]
                &&& final(self).remaining() == old(self).remaining().drop_first()
            },
    {
        proof {
            use_type_invariant(&*self);
            lemma_rows_step(self.slice@, self.nfeatures as nat);
        }
        if self.slice.is_empty() {
            None
        } else {
            let (first, last) = self.slice.split_at(self.nfeatures);
            self.slice = last;
            Some(first)
        }
    }
}

/// `len` is `n` times `d` exactly when `d` divides `len` with quotient `n`.
pub proof fn lemma_exact_quotient(len: int, d: int, n: int)
    requires
        0 <= len,
        0 < d,
        0 <= n,
    ensures
        len == n * d <==> len % d == 0 && len / d == n,
{
    vstd::arithmetic::div_mod::lemma_fundamental_div_mod(len, d);
    if len == n * d {
        vstd::arithmetic::div_mod::lemma_div_multiples_vanish(n, d);
        vstd::arithmetic::div_mod::lemma_mod_multiples_basic(n, d);
    }
    if len % d == 0 && len / d == n {
        assert(d * n == n * d) by (nonlinear_arith);
    }
}

/// Row `i` of `n` rows of width `d` lies inside the first `n * d` positions.
pub proof fn lemma_row_bounds(i: int, n: int, d: int)
    requires
        0 <= i < n,
        0 < d,
    ensures
        0 <= i * d,
        i * d + d == (i + 1) * d,
        (i + 1) * d <= n * d,
{
    assert(0 <= i * d) by (nonlinear_arith)
        requires
            0 <= i,
            0 < d,
    ;
    assert(i * d + d == (i + 1) * d) by (nonlinear_arith);
    assert((i + 1) * d <= n * d) by (nonlinear_arith)
        requires
            i + 1 <= n,
            0 < d,
    ;
}

/// A buffer of exactly `n * d` values is cut into `n` rows of `d` values.
pub proof fn lemma_rows_shape<T>(flat: Seq<T>, d: nat, n: nat)
    requires
        0 < d,
        flat.len() == n * d,
    ensures
        rows(flat, d).len() == n,
        forall|i: int| 0 <= i < n ==> (#[trigger] rows(flat, d)[i]).len() == d,
{
    lemma_exact_quotient(flat.len() as int, d as int, n as int);
    assert forall|i: int| 0 <= i < n implies (#[trigger] rows(flat, d)[i]).len() == d by {
        lemma_row_bounds(i, n as int, d as int);
    }
}

/// Cutting off the first row of a buffer leaves the buffer's other rows.
pub proof fn lemma_rows_step<T>(flat: Seq<T>, d: nat)
    requires
        0 < d,
        flat.len() % d == 0,
    ensures
        rows(flat, d).len() == 0 <==> flat.len() == 0,
        flat.len() > 0 ==> {
            &&& d <= flat.len()
            &&& (flat.len() - d) % (d as int) == 0
            &&& rows(flat, d)[0] == flat.subrange(0, d as int)
            &&& rows(flat.subrange(d as int, flat.len() as int), d) == rows(flat, d).drop_first()
        },
{
    let len = flat.len() as int;
    let n = len / (d as int);
    vstd::arithmetic::div_mod::lemma_fundamental_div_mod(len, d as int);
    assert(len == (d as int) * n);
    assert(n >= 0 && (len > 0 ==> n >= 1)) by (nonlinear_arith)
        requires
            len == (d as int) * n,
            len >= 0,
            d > 0,
    ;
    if len > 0 {
        assert(len - d == (n - 1) * d) by (nonlinear_arith)
            requires
                len == (d as int) * n,
        ;
        lemma_exact_quotient(len - d, d as int, n - 1);
        assert(d <= len) by (nonlinear_arith)
            requires
                len == (d as int) * n,
                n >= 1,
                d > 0,
        ;
        let rest = flat.subrange(d as int, len);
        let left = rows(rest, d);
        let right = rows(flat, d).drop_first();
        assert(left.len() == right.len());
        assert forall|i: int| 0 <= i < left.len() implies left[i] == right[i] by {
            lemma_row_bounds(i, n - 1, d as int);
            lemma_row_bounds(i + 1, n, d as int);
            assert((i + 1) * d == i * d + d) by (nonlinear_arith);
            assert((i + 2) * d == (i + 1) * d + d) by (nonlinear_arith);
            assert(left[i] =~= right[i]);
        }
        assert(left =~= right);
        assert(1 * d == d) by (nonlinear_arith);
        assert(0 * d == 0) by (nonlinear_arith);
    }
}

} // verus!
