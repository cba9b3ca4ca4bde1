use vstd::prelude::*;
use vstd::string::*;

verus! {

/// A zero-based (column, row) position in a worksheet.
#[derive(Debug, Default, Clone, Copy, PartialEq, Eq, Structural)]
pub struct CellId(pub u32, pub u32);

/// The one error of address decoding: the text is not a cell address.
#[derive(Debug, Clone, Copy, PartialEq, Eq, Structural)]
pub struct AddressDecodeError;

/// The largest one-based column or row number that a `CellId` can hold.
pub const ONE_BASED_MAX: u64 = 0x1_0000_0000;

/// The letter that stands for digit `d` (0 for `A`) of a column name.
pub open spec fn letter(d: nat) -> char {
    ((65 + d) as u32) as char
}

/// The decimal digit character for `d < 10`.
pub open spec fn digit(d: nat) -> char {
    ((48 + d) as u32) as char
}

/// The letters of the one-based column number `n` in bijective base 26
/// (`1` is `A`, `26` is `Z`, `27` is `AA`); empty for `0`.
pub open spec fn column_letters(n: nat) -> Seq<char>
    decreases n,
{
    if n == 0 {
        Seq::empty()
    } else {
        column_letters(((n - 1) as nat) / 26) + seq![letter(((n - 1) as nat) % 26)]
    }
}

/// The decimal numeral of `n`, most significant digit first, without leading zeros.
pub open spec fn decimal(n: nat) -> Seq<char>
    decreases n,
{
    if n < 10 {
        seq![digit(n)]
    } else {
        decimal(n / 10) + seq![digit(n % 10)]
    }
}

/// The text of the zero-based position `(column, row)`: column letters, then
/// the one-based row number.
pub open spec fn address_text(column: nat, row: nat) -> Seq<char> {
    column_letters(column + 1) + decimal(row + 1)
}

pub open spec fn is_letter(c: char) -> bool {
    65 <= c as u32 <= 90
}

pub open spec fn is_digit(c: char) -> bool {
    48 <= c as u32 <= 57
}

/// The one-based column number that a run of capital letters names.
pub open spec fn letters_value(s: Seq<char>) -> nat
    decreases s.len(),
{
    if s.len() == 0 {
        0
    } else {
        letters_value(s.drop_last()) * 26 + ((s.last() as u32) - 64) as nat
    }
}

/// The number that a run of decimal digits names.
pub open spec fn digits_value(s: Seq<char>) -> nat
    decreases s.len(),
{
    if s.len() == 0 {
        0
    } else {
        digits_value(s.drop_last()) * 10 + ((s.last() as u32) - 48) as nat
    }
}

/// `s` is `k` capital letters followed by at least one decimal digit, with `k > 0`.
pub open spec fn address_shape(s: Seq<char>, k: int) -> bool {
    &&& 0 < k < s.len()
    &&& forall|i: int| 0 <= i < k ==> is_letter(#[trigger] s[i])
    &&& forall|i: int| k <= i < s.len() ==> is_digit(#[trigger] s[i])
}

/// The zero-based position that the text `s` names, if it names one that a
/// `CellId` can hold: letters, then digits, with a column and a row number
/// that are both at least one.
pub open spec fn parse_address(s: Seq<char>) -> Option<(nat, nat)> {
    if exists|k: int| address_shape(s, k) {
        let k = choose|k: int| address_shape(s, k);
        let c = letters_value(s.subrange(0, k));
        let r = digits_value(s.subrange(k, s.len() as int));
        if 1 <= c <= ONE_BASED_MAX && 1 <= r <= ONE_BASED_MAX {
            Some(((c - 1) as nat, (r - 1) as nat))
        } else {
            None
        }
    } else {
        None
    }
}

impl CellId {
    /// The position `x` columns further right.
    pub fn add_x(&self, x: u32) -> (r: Self)
        requires
            self.0 + x <= u32::MAX,
        ensures
            r.0 == self.0 + x,
            r.1 == self.1,
    {
        CellId(self.0 + x, self.1)
    }

    /// The position `y` rows further down.
    pub fn add_y(&self, y: u32) -> (r: Self)
        requires
            self.1 + y <= u32::MAX,
        ensures
            r.0 == self.0,
            r.1 == self.1 + y,
    {
        CellId(self.0, self.1 + y)
    }

    /// The address text of this position, such as `AB1`.
    pub fn to_string(&self) -> (s: String)
        ensures
            s@ == address_text(self.0 as nat, self.1 as nat),
    {
        encode_address(self.0, self.1)
    }
}

/// The one-character text of letter `d` of a column name.
fn letter_text(d: u64) -> (r: &'static str)
    requires
        d < 26,
    ensures
        r@ == seq![letter(d as nat)],
{
    let alphabet = "ABCDEFGHIJKLMNOPQRSTUVWXYZ";
    proof {
        reveal_strlit("ABCDEFGHIJKLMNOPQRSTUVWXYZ");
    }
    let r = alphabet.substring_char(d as usize, d as usize + 1);
    assert(r@ =~= seq![alphabet@[d as int]]);
    r
}

/// The one-character text of the decimal digit `d`.
fn digit_text(d: u64) -> (r: &'static str)
    requires
        d < 10,
    ensures
        r@ == seq![digit(d as nat)],
{
    let digits = "0123456789";
    proof {
        reveal_strlit("0123456789");
    }
    let r = digits.substring_char(d as usize, d as usize + 1);
    assert(r@ =~= seq![digits@[d as int]]);
    r
}

/// `piece` followed by `rest`.
fn prepend(piece: &str, rest: String) -> (r: String)
    ensures
        r@ == piece@ + rest@,
{
    let mut r = String::from_str(piece);
    r.append(rest.as_str());
    r
}

/// The decimal numeral of `n`.
pub fn decimal_text(n: u64) -> (s: String)
    ensures
        s@ == decimal(n as nat),
{
    let mut out = String::new();
    let mut l: u64 = n;
    while l >= 10
        invariant
            decimal(n as nat) == decimal(l as nat) + out@,
        decreases l,
    {
        let d = l % 10;
        out = prepend(digit_text(d), out);
        proof {
            assert(decimal(l as nat) == decimal((l / 10) as nat) + seq![digit(d as nat)]);
            assert(decimal(n as nat) =~= decimal((l / 10) as nat) + out@);
        }
        l = l / 10;
    }
    out = prepend(digit_text(l), out);
    out
}

/// The address text of the zero-based position `(column, row)`: the column in
/// bijective base 26, then the one-based row number.
pub fn encode_address(column: u32, row: u32) -> (s: String)
    ensures
        s@ == address_text(column as nat, row as nat),
{
    let mut out = String::new();
    let mut l: u64 = column as u64 + 1;
    while l > 0
        invariant
            column_letters(column as nat + 1) == column_letters(l as nat) + out@,
        decreases l,
    {
        let m = (l - 1) % 26;
        out = prepend(letter_text(m), out);
        proof {
            assert(column_letters(column as nat + 1) =~= column_letters(((l - 1) / 26) as nat) + out@);
        }
        l = (l - m) / 26;
    }
    assert(out@ =~= column_letters(column as nat + 1));
    let digits = decimal_text(row as u64 + 1);
    let mut r = out;
    r.append(digits.as_str());
    r
}


proof fn lemma_letters_step(s: Seq<char>, i: int)
    requires
        0 <= i < s.len(),
    ensures
        letters_value(s.subrange(0, i + 1)) == letters_value(s.subrange(0, i)) * 26 + ((s[i] as u32) - 64) as nat,
{
    assert(s.subrange(0, i + 1).drop_last() =~= s.subrange(0, i));
}

proof fn lemma_digits_step(s: Seq<char>, k: int, i: int)
    requires
        0 <= k <= i < s.len(),
    ensures
        digits_value(s.subrange(k, i + 1)) == digits_value(s.subrange(k, i)) * 10 + ((s[i] as u32) - 48) as nat,
{
    assert(s.subrange(k, i + 1).drop_last() =~= s.subrange(k, i));
}

/// A longer run of letters names a column at least as large.
proof fn lemma_letters_monotone(s: Seq<char>, j: int, k: int)
    requires
        0 <= j <= k <= s.len(),
        forall|i: int| 0 <= i < k ==> is_letter(#[trigger] s[i]),
    ensures
        letters_value(s.subrange(0, j)) <= letters_value(s.subrange(0, k)),
    decreases k - j,
{
    if j < k {
        lemma_letters_monotone(s, j, k - 1);
        lemma_letters_step(s, k - 1);
    }
}

/// A longer run of digits names a number at least as large.
proof fn lemma_digits_monotone(s: Seq<char>, k: int, j: int, m: int)
    requires
        0 <= k <= j <= m <= s.len(),
        forall|i: int| k <= i < m ==> is_digit(#[trigger] s[i]),
    ensures
        digits_value(s.subrange(k, j)) <= digits_value(s.subrange(k, m)),
    decreases m - j,
{
    if j < m {
        lemma_digits_monotone(s, k, j, m - 1);
        lemma_digits_step(s, k, m - 1);
    }
}

/// The split between letters and digits is unique.
proof fn lemma_shape_unique(s: Seq<char>, k1: int, k2: int)
    requires
        address_shape(s, k1),
        address_shape(s, k2),
    ensures
        k1 == k2,
{
    if k1 < k2 {
        assert(is_letter(s[k1]) && is_digit(s[k1]));
    } else if k2 < k1 {
        assert(is_letter(s[k2]) && is_digit(s[k2]));
    }
}

proof fn lemma_column_letters(n: nat)
    ensures
        letters_value(column_letters(n)) == n,
        forall|i: int| 0 <= i < column_letters(n).len() ==> is_letter(#[trigger] column_letters(n)[i]),
        n > 0 ==> column_letters(n).len() > 0,
    decreases n,
{
    if n > 0 {
        let q = ((n - 1) as nat) / 26;
        let m = ((n - 1) as nat) % 26;
        lemma_column_letters(q);
        let l = column_letters(n);
        assert(l.drop_last() =~= column_letters(q));
        assert(letter(m) as u32 == 65 + m);
    }
}

proof fn lemma_decimal(n: nat)
    ensures
        digits_value(decimal(n)) == n,
        forall|i: int| 0 <= i < decimal(n).len() ==> is_digit(#[trigger] decimal(n)[i]),
        decimal(n).len() > 0,
    decreases n,
{
    let d = decimal(n);
    if n < 10 {
        assert(d.drop_last() =~= Seq::<char>::empty());
        assert(digits_value(Seq::<char>::empty()) == 0);
        assert(digit(n) as u32 == 48 + n);
    } else {
        lemma_decimal(n / 10);
        assert(d.drop_last() =~= decimal(n / 10));
        assert(digit(n % 10) as u32 == 48 + n % 10);
        assert(n == (n / 10) * 10 + n % 10);
    }
}

/// Decoding the text of a position gives that position back: for every
/// column and row that a `CellId` holds, `decode_address` of the output of
/// `encode_address` succeeds with the same column and row.
pub proof fn lemma_round_trip(column: u32, row: u32)
    ensures
        parse_address(address_text(column as nat, row as nat)) == Some((column as nat, row as nat)),
{
    let l = column_letters(column as nat + 1);
    let d = decimal(row as nat + 1);
    let s = address_text(column as nat, row as nat);
    lemma_column_letters(column as nat + 1);
    lemma_decimal(row as nat + 1);
    let k = l.len() as int;
    assert(address_shape(s, k));
    let k2 = choose|k2: int| address_shape(s, k2);
    lemma_shape_unique(s, k, k2);
    assert(s.subrange(0, k) =~= l);
    assert(s.subrange(k, s.len() as int) =~= d);
}

/// Whether `s` has a capital letter at `i`.
fn letter_at(s: &str, i: usize, n: usize) -> (r: bool)
    requires
        n == s@.len(),
    ensures
        r == (i < n && is_letter(s@[i as int])),
{
    if i < n {
        let v = s.get_char(i) as u32;
        65 <= v && v <= 90
    } else {
        false
    }
}

/// The zero-based position that an address text such as `AB12` names.
/// Fails unless the text is one or more capital letters followed by one or
/// more decimal digits, with a row number of at least one and both numbers
/// in the range of a `CellId`.
pub fn decode_address(s: &str) -> (r: Result<CellId, AddressDecodeError>)
    ensures
        match parse_address(s@) {
            Some(p) => r == Ok::<CellId, AddressDecodeError>(CellId(p.0 as u32, p.1 as u32)),
            None => r is Err,
        },
{
    let n = s.unicode_len();
    let mut col: u64 = 0;
    let mut i: usize = 0;
    while letter_at(s, i, n)
        invariant
            n == s@.len(),
            i <= n,
            forall|j: int| 0 <= j < i ==> is_letter(#[trigger] s@[j]),
            col == letters_value(s@.subrange(0, i as int)),
            col <= ONE_BASED_MAX,
        decreases n - i,
    {
        let v = s.get_char(i) as u32;
        proof {
            lemma_letters_step(s@, i as int);
        }
        col = col * 26 + (v as u64 - 64);
        i = i + 1;
        if col > ONE_BASED_MAX {
            proof {
                if exists|k: int| address_shape(s@, k) {
                    let k = choose|k: int| address_shape(s@, k);
                    if k < i {
                        assert(is_letter(s@[k]) && is_digit(s@[k]));
                    }
                    lemma_letters_monotone(s@, i as int, k);
                }
            }
            return Err(AddressDecodeError);
        }
    }
    let k = i;
    if k == 0 || k == n {
        proof {
            if exists|k2: int| address_shape(s@, k2) {
                let k2 = choose|k2: int| address_shape(s@, k2);
                if k == 0 {
                    assert(is_letter(s@[0]));
                } else {
                    assert(is_letter(s@[k2]) && is_digit(s@[k2]));
                }
            }
        }
        return Err(AddressDecodeError);
    }
    proof {
        lemma_letters_step(s@, k - 1);
    }
    let mut row: u64 = 0;
    while i < n
        invariant
            n == s@.len(),
            0 < k <= i <= n,
            k < n,
            !is_letter(s@[k as int]),
            forall|j: int| 0 <= j < k ==> is_letter(#[trigger] s@[j]),
            forall|j: int| k <= j < i ==> is_digit(#[trigger] s@[j]),
            col == letters_value(s@.subrange(0, k as int)),
            1 <= col <= ONE_BASED_MAX,
            row == digits_value(s@.subrange(k as int, i as int)),
            row <= ONE_BASED_MAX,
        decreases n - i,
    {
        let v = s.get_char(i) as u32;
        if !(48 <= v && v <= 57) {
            proof {
                if exists|k2: int| address_shape(s@, k2) {
                    let k2 = choose|k2: int| address_shape(s@, k2);
                    if k2 < k {
                        assert(is_letter(s@[k2]) && is_digit(s@[k2]));
                    } else if k2 > k {
                        assert(is_letter(s@[k as int]));
                    } else {
                        assert(is_digit(s@[i as int]));
                    }
                }
            }
            return Err(AddressDecodeError);
        }
        proof {
            lemma_digits_step(s@, k as int, i as int);
        }
        row = row * 10 + (v as u64 - 48);
        i = i + 1;
        if row > ONE_BASED_MAX {
            proof {
                if exists|k2: int| address_shape(s@, k2) {
                    let k2 = choose|k2: int| address_shape(s@, k2);
                    if k2 < k {
                        assert(is_letter(s@[k2]) && is_digit(s@[k2]));
                    } else if k2 > k {
                        assert(is_letter(s@[k as int]));
                    }
                    lemma_digits_monotone(s@, k as int, i as int, n as int);
                }
            }
            return Err(AddressDecodeError);
        }
    }
    proof {
        assert(address_shape(s@, k as int));
        let k2 = choose|k2: int| address_shape(s@, k2);
        lemma_shape_unique(s@, k as int, k2);
    }
    if row == 0 {
        return Err(AddressDecodeError);
    }
    Ok(CellId((col - 1) as u32, (row - 1) as u32))
}

} // verus!
