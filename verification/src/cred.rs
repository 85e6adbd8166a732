//! Credence values and credence tables.
//!
//! A credence is a user-entered weight for one outcome given one combination
//! of parent outcomes. It is carried here as the decimal text token that the
//! JSON format uses for it, so that the graph and the serialization are
//! exact; a missing value (the minus-infinity sentinel, written `null` in
//! the JSON format) is represented separately. The conversion of a token to
//! a machine float happens outside this crate.

use vstd::prelude::*;

verus! {

/// Whether `c` is a decimal digit.
pub open spec fn is_digit(c: char) -> bool {
    '0' <= c && c <= '9'
}

/// Index just past the run of decimal digits of `s` that starts at `i`.
pub open spec fn skip_digits(s: Seq<char>, i: int) -> int
    decreases s.len() - i when 0 <= i <= s.len()
{
    if i < s.len() && is_digit(s[i]) {
        skip_digits(s, i + 1)
    } else {
        i
    }
}

pub proof fn lemma_skip_digits(s: Seq<char>, i: int)
    requires
        0 <= i <= s.len(),
    ensures
        i <= skip_digits(s, i) <= s.len(),
        forall|k: int| i <= k < skip_digits(s, i) ==> is_digit(#[trigger] s[k]),
        skip_digits(s, i) < s.len() ==> !is_digit(s[skip_digits(s, i)]),
    decreases s.len() - i,
{
    if i < s.len() && is_digit(s[i]) {
        lemma_skip_digits(s, i + 1);
    }
}

/// Index just past the integer part of a number that starts at `i`:
/// a single `0`, or a nonzero digit followed by more digits.
/// Negative when no valid integer part starts at `i`.
pub open spec fn int_part_end(s: Seq<char>, i: int) -> int {
    if 0 <= i < s.len() && s[i] == '0' {
        i + 1
    } else if 0 <= i < s.len() && is_digit(s[i]) {
        skip_digits(s, i)
    } else {
        -1
    }
}

/// Index just past the optional fraction part (`.` and digits) at `i`;
/// `i` itself when absent, negative when malformed.
pub open spec fn frac_part_end(s: Seq<char>, i: int) -> int {
    if 0 <= i < s.len() && s[i] == '.' {
        if i + 1 < s.len() && is_digit(s[i + 1]) {
            skip_digits(s, i + 1)
        } else {
            -1
        }
    } else {
        i
    }
}

/// Index just past the optional exponent part (`e`/`E`, optional sign,
/// digits) at `i`; `i` itself when absent, negative when malformed.
pub open spec fn exp_part_end(s: Seq<char>, i: int) -> int {
    if 0 <= i < s.len() && (s[i] == 'e' || s[i] == 'E') {
        let j = if i + 1 < s.len() && (s[i + 1] == '+' || s[i + 1] == '-') {
            i + 2
        } else {
            i + 1
        };
        if j < s.len() && is_digit(s[j]) {
            skip_digits(s, j)
        } else {
            -1
        }
    } else {
        i
    }
}

/// Index just past the number that starts at `i`, following the JSON
/// number grammar; negative when no number starts at `i`.
pub open spec fn number_token_end(s: Seq<char>, i: int) -> int {
    let j0 = if 0 <= i < s.len() && s[i] == '-' {
        i + 1
    } else {
        i
    };
    let j1 = int_part_end(s, j0);
    if j1 < 0 {
        -1
    } else {
        let j2 = frac_part_end(s, j1);
        if j2 < 0 {
            -1
        } else {
            exp_part_end(s, j2)
        }
    }
}

/// A number scan never runs past the text.
pub proof fn lemma_number_token_end_bounds(s: Seq<char>, i: int)
    requires
        0 <= i <= s.len(),
    ensures
        number_token_end(s, i) <= s.len(),
        number_token_end(s, i) >= 0 ==> i < number_token_end(s, i),
{
    let j0 = if 0 <= i < s.len() && s[i] == '-' {
        i + 1
    } else {
        i
    };
    lemma_skip_digits(s, j0);
    let j1 = int_part_end(s, j0);
    if j1 >= 0 {
        if j1 < s.len() {
            lemma_skip_digits(s, j1 + 1);
        }
        let j2 = frac_part_end(s, j1);
        if j2 >= 0 {
            if j2 < s.len() && (s[j2] == 'e' || s[j2] == 'E') {
                let k = if j2 + 1 < s.len() && (s[j2 + 1] == '+' || s[j2 + 1] == '-') {
                    j2 + 2
                } else {
                    j2 + 1
                };
                if k < s.len() {
                    lemma_skip_digits(s, k);
                }
            }
        }
    }
}

/// Whether `s` is exactly one number of the JSON number grammar.
pub open spec fn is_number_token(s: Seq<char>) -> bool {
    s.len() >= 1 && number_token_end(s, 0) == s.len()
}

/// Exec scan of a digit run: the counterpart of [`skip_digits`].
pub(crate) fn scan_digits(s: &Vec<char>, i: usize) -> (r: usize)
    requires
        i <= s@.len(),
    ensures
        r == skip_digits(s@, i as int),
        i <= r <= s@.len(),
{
    proof {
        lemma_skip_digits(s@, i as int);
    }
    let mut j = i;
    loop
        invariant
            i <= j <= s@.len(),
            skip_digits(s@, i as int) == skip_digits(s@, j as int),
        ensures
            j == skip_digits(s@, i as int),
        decreases s@.len() - j,
    {
        if j >= s.len() {
            break;
        }
        let c = s[j];
        if !('0' <= c && c <= '9') {
            break;
        }
        j = j + 1;
    }
    proof {
        lemma_skip_digits(s@, i as int);
    }
    j
}

/// Exec scan of one number: the counterpart of [`number_token_end`].
/// Returns the index just past the number that starts at `i`, or `None`
/// when no number starts there.
pub(crate) fn scan_number(s: &Vec<char>, i: usize) -> (r: Option<usize>)
    requires
        i <= s@.len(),
    ensures
        match r {
            Some(j) => i <= j <= s@.len() && number_token_end(s@, i as int) == j,
            None => number_token_end(s@, i as int) < 0,
        },
{
    let n = s.len();
    let j0 = if i < n && s[i] == '-' {
        i + 1
    } else {
        i
    };
    // integer part
    let j1 = if j0 < n && s[j0] == '0' {
        j0 + 1
    } else if j0 < n && '0' <= s[j0] && s[j0] <= '9' {
        proof {
            lemma_skip_digits(s@, j0 as int);
        }
        scan_digits(s, j0)
    } else {
        return None;
    };
    proof {
        lemma_skip_digits(s@, j0 as int);
    }
    // fraction part
    let j2 = if j1 < n && s[j1] == '.' {
        if j1 + 1 < n && '0' <= s[j1 + 1] && s[j1 + 1] <= '9' {
            proof {
                lemma_skip_digits(s@, j1 + 1);
            }
            scan_digits(s, j1 + 1)
        } else {
            return None;
        }
    } else {
        j1
    };
    // exponent part
    let j3 = if j2 < n && (s[j2] == 'e' || s[j2] == 'E') {
        let k = if j2 + 1 < n && (s[j2 + 1] == '+' || s[j2 + 1] == '-') {
            j2 + 2
        } else {
            j2 + 1
        };
        if k < n && '0' <= s[k] && s[k] <= '9' {
            proof {
                lemma_skip_digits(s@, k as int);
            }
            scan_digits(s, k)
        } else {
            return None;
        }
    } else {
        j2
    };
    Some(j3)
}

/// Whether the whole of `s` is one number of the JSON number grammar.
pub fn is_valid_number_token(s: &Vec<char>) -> (r: bool)
    ensures
        r == is_number_token(s@),
{
    if s.len() == 0 {
        return false;
    }
    match scan_number(s, 0) {
        Some(j) => j == s.len(),
        None => false,
    }
}


/// One credence entry: a decimal number token, or the missing-value
/// sentinel (minus infinity, written `null` in the JSON format).
pub struct Cred {
    tok: Option<String>,
}

impl View for Cred {
    type V = Option<Seq<char>>;

    closed spec fn view(&self) -> Option<Seq<char>> {
        match self.tok {
            Some(t) => Some(t@),
            None => None,
        }
    }
}

impl Cred {
    /// A stored token is always a number of the JSON number grammar.
    #[verifier::type_invariant]
    spec fn inv(self) -> bool {
        self.tok matches Some(t) ==> is_number_token(t@)
    }

    /// The missing-value sentinel.
    pub fn null() -> (r: Cred)
        ensures
            r@ is None,
    {
        Cred { tok: None }
    }

    /// Wraps a number token; refuses text that is not one number of the
    /// JSON number grammar.
    pub fn number(tok: String) -> (r: Option<Cred>)
        ensures
            match r {
                Some(c) => c@ == Some(tok@) && is_number_token(tok@),
                None => !is_number_token(tok@),
            },
    {
        let chars = str_to_chars(tok.as_str());
        if is_valid_number_token(&chars) {
            Some(Cred { tok: Some(tok) })
        } else {
            None
        }
    }

    /// The token, or `None` for the missing-value sentinel.
    pub fn token(&self) -> (r: Option<&String>)
        ensures
            match r {
                Some(t) => self@ == Some(t@),
                None => self@ is None,
            },
    {
        self.tok.as_ref()
    }

    /// Whether this entry is the missing-value sentinel.
    pub fn is_missing(&self) -> (r: bool)
        ensures
            r == (self@ is None),
    {
        self.tok.is_none()
    }

    /// An equal, independent copy.
    pub fn clone_cred(&self) -> (r: Cred)
        ensures
            r == *self,
    {
        proof {
            use_type_invariant(self);
        }
        match &self.tok {
            Some(t) => Cred { tok: Some(t.clone()) },
            None => Cred { tok: None },
        }
    }
}

/// The characters of `s`, one by one.
pub fn str_to_chars(s: &str) -> (r: Vec<char>)
    ensures
        r@ == s@,
{
    let n = s.unicode_len();
    let mut out: Vec<char> = Vec::new();
    let mut i: usize = 0;
    while i < n
        invariant
            n == s@.len(),
            i <= n,
            out@ == s@.subrange(0, i as int),
        decreases n - i,
    {
        let c = s.get_char(i);
        out.push(c);
        i = i + 1;
        proof {
            assert(out@ =~= s@.subrange(0, i as int));
        }
    }
    proof {
        assert(out@ =~= s@);
    }
    out
}

/// The product of the entries of `s`.
pub open spec fn seq_product(s: Seq<usize>) -> nat
    decreases s.len(),
{
    if s.len() == 0 {
        1
    } else {
        (seq_product(s.drop_last()) * s.last()) as nat
    }
}

/// Whether the running products of `s`, taken left to right, all fit the
/// machine word; when one does not, a dense table of that size cannot exist.
pub open spec fn prefix_products_fit(s: Seq<usize>) -> bool {
    forall|i: int| 0 <= i <= s.len() ==> seq_product(#[trigger] s.subrange(0, i)) <= usize::MAX
}

/// Computes the product of `shape`, or reports that it overflows.
pub fn checked_product(shape: &Vec<usize>) -> (r: Option<usize>)
    ensures
        match r {
            Some(p) => p == seq_product(shape@) && prefix_products_fit(shape@),
            None => !prefix_products_fit(shape@),
        },
{
    let mut acc: usize = 1;
    let mut i: usize = 0;
    while i < shape.len()
        invariant
            i <= shape@.len(),
            acc == seq_product(shape@.subrange(0, i as int)),
            forall|j: int|
                0 <= j <= i ==> seq_product(#[trigger] shape@.subrange(0, j)) <= usize::MAX,
        decreases shape@.len() - i,
    {
        let ghost pre = shape@.subrange(0, i as int);
        let next = match acc.checked_mul(shape[i]) {
            Some(v) => v,
            None => {
                proof {
                    assert(shape@.subrange(0, i + 1).drop_last() =~= pre);
                    assert(seq_product(shape@.subrange(0, i + 1)) > usize::MAX);
                }
                return None;
            },
        };
        proof {
            assert(shape@.subrange(0, i + 1).drop_last() =~= pre);
        }
        acc = next;
        i = i + 1;
    }
    proof {
        assert(shape@.subrange(0, shape@.len() as int) =~= shape@);
    }
    Some(acc)
}

/// A dense credence table: a shape and one entry per cell, in row-major
/// order (the last axis varies fastest).
pub struct CredTable {
    shape: Vec<usize>,
    data: Vec<Cred>,
}

impl CredTable {
    /// The entry count always equals the product of the shape, and the
    /// running products of the shape fit the machine word (a dense table
    /// could not exist otherwise).
    #[verifier::type_invariant]
    pub open spec fn inv(self) -> bool {
        self.dense()
    }

    /// The shape, abstractly.
    pub closed spec fn shape_spec(&self) -> Seq<usize> {
        self.shape@
    }

    /// The entries, abstractly, in row-major order.
    pub closed spec fn data_spec(&self) -> Seq<Cred> {
        self.data@
    }

    /// The entries as tokens.
    pub open spec fn entries(&self) -> Seq<Option<Seq<char>>> {
        self.data_spec().map_values(|c: Cred| c@)
    }

    /// The shape and entry count agree and the shape's running products
    /// fit the machine word.
    pub open spec fn dense(&self) -> bool {
        self.data_spec().len() == seq_product(self.shape_spec()) && prefix_products_fit(
            self.shape_spec(),
        )
    }

    /// Builds a table from a shape and a flat entry list; refuses the pair
    /// when the entry count does not match the shape (or the shape's size
    /// overflows the machine word, in which case no dense table exists).
    pub fn new(shape: Vec<usize>, data: Vec<Cred>) -> (r: Option<CredTable>)
        ensures
            match r {
                Some(t) => t.shape_spec() == shape@ && t.data_spec() == data@ && data@.len()
                    == seq_product(shape@) && prefix_products_fit(shape@),
                None => !(data@.len() == seq_product(shape@) && prefix_products_fit(shape@)),
            },
    {
        match checked_product(&shape) {
            Some(p) => {
                if data.len() == p {
                    Some(CredTable { shape, data })
                } else {
                    None
                }
            },
            None => None,
        }
    }

    /// The shape.
    pub fn shape(&self) -> (r: &Vec<usize>)
        ensures
            r@ == self.shape_spec(),
    {
        &self.shape
    }

    /// The flat entries, in row-major order.
    pub fn data(&self) -> (r: &Vec<Cred>)
        ensures
            r@ == self.data_spec(),
    {
        &self.data
    }

    /// An equal, independent copy.
    pub fn clone_table(&self) -> (r: CredTable)
        ensures
            r.shape_spec() == self.shape_spec(),
            r.data_spec() == self.data_spec(),
    {
        proof {
            use_type_invariant(self);
        }
        let mut shape: Vec<usize> = Vec::new();
        let mut i: usize = 0;
        while i < self.shape.len()
            invariant
                i <= self.shape@.len(),
                shape@ == self.shape@.subrange(0, i as int),
            decreases self.shape@.len() - i,
        {
            shape.push(self.shape[i]);
            i = i + 1;
            proof {
                assert(shape@ =~= self.shape@.subrange(0, i as int));
            }
        }
        let mut data: Vec<Cred> = Vec::new();
        let mut j: usize = 0;
        while j < self.data.len()
            invariant
                j <= self.data@.len(),
                data@ =~= self.data@.subrange(0, j as int),
            decreases self.data@.len() - j,
        {
            data.push(self.data[j].clone_cred());
            j = j + 1;
        }
        proof {
            assert(shape@ =~= self.shape@);
            assert(data@ =~= self.data@);
        }
        CredTable { shape, data }
    }
}

} // verus!
