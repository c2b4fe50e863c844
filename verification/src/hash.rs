//! Fixed-width byte identifiers with a lowercase hexadecimal text form.

use std::cmp::Ordering;
use vstd::prelude::*;
use vstd::string::StringSliceAdditionalSpecFns;
use vstd::utf8::{encode_utf8, is_ascii_chars, is_ascii_chars_encode_utf8};

use crate::text::{decimal_text, push_decimal};

verus! {

/// Why a text could not be read as a [`Hash`].
#[derive(Clone, Copy, Debug, PartialEq, Eq, Structural)]
pub enum HashError {
    /// The text does not hold two characters for each byte.
    InvalidLength { expected: usize, actual: usize },
    /// The pair of characters that starts at `position` is not a byte in hexadecimal.
    InvalidCharacter { position: usize },
}

impl HashError {
    /// The wording of the error.
    pub open spec fn message(self) -> Seq<char> {
        match self {
            HashError::InvalidLength { expected, actual } => "Invalid hex length\nExpected: "@
                + decimal_text(expected as nat) + "\nActual: "@ + decimal_text(actual as nat),
            HashError::InvalidCharacter { position } => "Invalid hex character at position "@
                + decimal_text(position as nat),
        }
    }

    /// The error in words.
    pub fn to_string(&self) -> (text: String)
        ensures
            text@ == self.message(),
    {
        match self {
            HashError::InvalidLength { expected, actual } => {
                let mut text = "Invalid hex length\nExpected: ".to_owned();
                push_decimal(&mut text, *expected);
                text.append("\nActual: ");
                push_decimal(&mut text, *actual);
                text
            },
            HashError::InvalidCharacter { position } => {
                let mut text = "Invalid hex character at position ".to_owned();
                push_decimal(&mut text, *position);
                text
            },
        }
    }
}

/// The lowercase hexadecimal digit of a value below sixteen.
pub open spec fn hex_char(nibble: u8) -> char {
    if nibble == 0 {
        '0'
    } else if nibble == 1 {
        '1'
    } else if nibble == 2 {
        '2'
    } else if nibble == 3 {
        '3'
    } else if nibble == 4 {
        '4'
    } else if nibble == 5 {
        '5'
    } else if nibble == 6 {
        '6'
    } else if nibble == 7 {
        '7'
    } else if nibble == 8 {
        '8'
    } else if nibble == 9 {
        '9'
    } else if nibble == 10 {
        'a'
    } else if nibble == 11 {
        'b'
    } else if nibble == 12 {
        'c'
    } else if nibble == 13 {
        'd'
    } else if nibble == 14 {
        'e'
    } else {
        'f'
    }
}

/// The text form of a byte sequence: two lowercase hexadecimal digits for each
/// byte, the high half first.
pub open spec fn hex_text(bytes: Seq<u8>) -> Seq<char> {
    Seq::new(
        2 * bytes.len(),
        |i: int|
            if i % 2 == 0 {
                hex_char(bytes[i / 2] / 16)
            } else {
                hex_char(bytes[i / 2] % 16)
            },
    )
}

/// The value of one hexadecimal digit given as a text byte, in either case.
pub open spec fn hex_value(byte: u8) -> Option<u8> {
    if 0x30 <= byte <= 0x39 {
        Some((byte - 0x30) as u8)
    } else if 0x61 <= byte <= 0x66 {
        Some((byte - 0x61 + 10) as u8)
    } else if 0x41 <= byte <= 0x46 {
        Some((byte - 0x41 + 10) as u8)
    } else {
        None
    }
}

/// Both text bytes of pair `i` are hexadecimal digits.
pub open spec fn pair_valid(text: Seq<u8>, i: int) -> bool {
    hex_value(text[2 * i]) is Some && hex_value(text[2 * i + 1]) is Some
}

/// The byte that pair `i` of the text stands for.
pub open spec fn pair_value(text: Seq<u8>, i: int) -> u8 {
    (hex_value(text[2 * i]).unwrap() * 16 + hex_value(text[2 * i + 1]).unwrap()) as u8
}

/// Pair `i` is the first pair of the text that is not a byte in hexadecimal.
pub open spec fn first_invalid_pair(text: Seq<u8>, n: nat, i: int) -> bool {
    &&& 0 <= i < n
    &&& !pair_valid(text, i)
    &&& forall|j: int| 0 <= j < i ==> pair_valid(text, j)
}

/// The text length that `n` bytes take, capped at what a length can hold.
pub open spec fn hex_len(n: nat) -> usize {
    if 2 * n <= usize::MAX {
        (2 * n) as usize
    } else {
        usize::MAX
    }
}

/// What reading `text` as `n` bytes gives: the bytes, or the first reason why not.
/// The length is judged before any character is.
pub open spec fn parse_hex(text: Seq<u8>, n: nat) -> Result<Seq<u8>, HashError> {
    if text.len() != 2 * n {
        Err(HashError::InvalidLength { expected: hex_len(n), actual: text.len() as usize })
    } else if exists|i: int| first_invalid_pair(text, n, i) {
        Err(
            HashError::InvalidCharacter {
                position: (2 * choose|i: int| first_invalid_pair(text, n, i)) as usize,
            },
        )
    } else {
        Ok(Seq::new(n, |i: int| pair_value(text, i)))
    }
}

/// `i` is the first index at which `a` and `b` hold different bytes.
pub open spec fn differ_first_at(a: Seq<u8>, b: Seq<u8>, i: int) -> bool {
    &&& 0 <= i < a.len()
    &&& i < b.len()
    &&& a[i] != b[i]
    &&& forall|j: int| 0 <= j < i ==> a[j] == b[j]
}

/// `a` comes before `b` in byte-lexicographic order: at the first place where
/// they differ, `a` holds the smaller byte.
pub open spec fn lex_lt(a: Seq<u8>, b: Seq<u8>) -> bool {
    exists|i: int| differ_first_at(a, b, i) && a[i] < b[i]
}

/// How one byte sequence stands to another in byte-lexicographic order.
#[derive(Clone, Copy, Debug, PartialEq, Eq, Structural)]
pub enum Order {
    Less,
    Equal,
    Greater,
}

/// The place of `a` relative to `b` in byte-lexicographic order.
pub open spec fn lex_order(a: Seq<u8>, b: Seq<u8>) -> Order {
    if a == b {
        Order::Equal
    } else if lex_lt(a, b) {
        Order::Less
    } else {
        Order::Greater
    }
}

/// A fixed-width identifier of `N` bytes.
#[derive(Clone, Copy, Debug, Eq, Ord, Hash)]
pub struct Hash<const N: usize> {
    bytes: [u8; N],
}

impl<const N: usize> View for Hash<N> {
    type V = Seq<u8>;

    closed spec fn view(&self) -> Seq<u8> {
        self.bytes@
    }
}

impl<const N: usize> Default for Hash<N> {
    /// The identifier whose bytes are all zero.
    fn default() -> (hash: Self)
        ensures
            hash@ == Seq::new(N as nat, |i: int| 0u8),
    {
        let hash = Self { bytes: [0u8; N] };
        assert(hash@ =~= Seq::new(N as nat, |i: int| 0u8));
        hash
    }
}

impl<const N: usize> PartialEq for Hash<N> {
    fn eq(&self, other: &Self) -> (equal: bool) {
        match self.compare(other) {
            Order::Equal => true,
            _ => false,
        }
    }
}

impl<const N: usize> vstd::std_specs::cmp::PartialEqSpecImpl for Hash<N> {
    open spec fn obeys_eq_spec() -> bool {
        true
    }

    open spec fn eq_spec(&self, other: &Self) -> bool {
        self@ == other@
    }
}

impl<const N: usize> PartialOrd for Hash<N> {
    fn partial_cmp(&self, other: &Self) -> (order: Option<Ordering>) {
        match self.compare(other) {
            Order::Less => Some(Ordering::Less),
            Order::Equal => Some(Ordering::Equal),
            Order::Greater => Some(Ordering::Greater),
        }
    }
}

impl<const N: usize> vstd::std_specs::cmp::PartialOrdSpecImpl for Hash<N> {
    open spec fn obeys_partial_cmp_spec() -> bool {
        true
    }

    open spec fn partial_cmp_spec(&self, other: &Self) -> Option<Ordering> {
        match lex_order(self@, other@) {
            Order::Less => Some(Ordering::Less),
            Order::Equal => Some(Ordering::Equal),
            Order::Greater => Some(Ordering::Greater),
        }
    }
}

impl<const N: usize> Hash<N> {
    /// An identifier has exactly `N` bytes.
    pub proof fn lemma_width(self)
        ensures
            self@.len() == N,
    {
    }

    /// Two identifiers are the same where they hold the same bytes.
    pub proof fn lemma_same_bytes(self, other: Self)
        ensures
            self@ == other@ <==> self == other,
    {
        if self@ == other@ {
            assert(self.bytes =~= other.bytes);
        }
    }

    /// The identifier that holds `bytes`.
    pub fn new(bytes: [u8; N]) -> (hash: Self)
        ensures
            hash@ == bytes@,
    {
        Self { bytes }
    }

    /// Where this identifier stands relative to `other` in byte-lexicographic order.
    pub fn compare(&self, other: &Self) -> (order: Order)
        ensures
            order == lex_order(self@, other@),
    {
        let mut i: usize = 0;
        while i < N
            invariant
                i <= N,
                self.bytes@.len() == N,
                other.bytes@.len() == N,
                forall|j: int| 0 <= j < i ==> self.bytes@[j] == other.bytes@[j],
            decreases N - i,
        {
            if self.bytes[i] < other.bytes[i] {
                proof {
                    assert(differ_first_at(self.bytes@, other.bytes@, i as int));
                }
                return Order::Less;
            }
            if self.bytes[i] > other.bytes[i] {
                proof {
                    lemma_first_difference_unique(self.bytes@, other.bytes@, i as int);
                }
                return Order::Greater;
            }
            i += 1;
        }
        proof {
            assert(self.bytes@ =~= other.bytes@);
        }
        Order::Equal
    }

    /// Reads the hexadecimal text form, in either case of the letters.
    pub fn from_string(hex: &str) -> (result: Result<Self, HashError>)
        ensures
            match result {
                Ok(hash) => parse_hex(hex.spec_bytes(), N as nat) == Ok::<Seq<u8>, HashError>(
                    hash@,
                ),
                Err(error) => parse_hex(hex.spec_bytes(), N as nat) == Err::<Seq<u8>, HashError>(
                    error,
                ),
            },
    {
        match to_bytes::<N>(hex.as_bytes()) {
            Ok(bytes) => Ok(Hash::new(bytes)),
            Err(error) => Err(error),
        }
    }

    /// The text form: lowercase hexadecimal, two characters for each byte.
    pub fn to_hex(&self) -> (text: String)
        ensures
            text@ == hex_text(self@),
    {
        let mut text = String::new();
        let mut i: usize = 0;
        while i < N
            invariant
                i <= N,
                self.bytes@.len() == N,
                text@ == hex_text(self.bytes@.take(i as int)),
            decreases N - i,
        {
            let byte = self.bytes[i];
            let ghost before = text@;
            text.append(hex_digit(byte / 16));
            text.append(hex_digit(byte % 16));
            proof {
                let shorter = self.bytes@.take(i as int);
                let longer = self.bytes@.take(i + 1);
                assert(text@ =~= before + seq![hex_char(byte / 16)] + seq![hex_char(byte % 16)]);
                assert forall|k: int| 0 <= k < 2 * (i + 1) implies text@[k] == hex_text(
                    longer,
                )[k] by {
                    if k < 2 * i {
                        assert(text@[k] == hex_text(shorter)[k]);
                        assert(shorter[k / 2] == longer[k / 2]);
                    }
                }
                assert(text@ =~= hex_text(longer));
            }
            i += 1;
        }
        proof {
            assert(self.bytes@.take(N as int) =~= self.bytes@);
        }
        text
    }

    /// The bytes of the identifier.
    pub fn as_bytes(&self) -> (bytes: &[u8; N])
        ensures
            bytes@ == self@,
    {
        &self.bytes
    }

    /// The identifier made of the first `M` bytes, where there are that many.
    pub fn truncate<const M: usize>(&self) -> (prefix: Option<Hash<M>>)
        ensures
            M <= N ==> prefix is Some && prefix.unwrap()@ == self@.take(M as int),
            M > N ==> prefix is None,
    {
        if M > N {
            return None;
        }
        let mut bytes = [0u8; M];
        let mut i: usize = 0;
        while i < M
            invariant
                i <= M <= N,
                self.bytes@.len() == N,
                bytes@.len() == M,
                forall|j: int| 0 <= j < i ==> bytes@[j] == self.bytes@[j],
            decreases M - i,
        {
            bytes[i] = self.bytes[i];
            i += 1;
        }
        proof {
            assert(bytes@ =~= self.bytes@.take(M as int));
        }
        Some(Hash::new(bytes))
    }
}

/// The digit of a value below sixteen, as a text of one character.
fn hex_digit(nibble: u8) -> (digit: &'static str)
    requires
        nibble < 16,
    ensures
        digit@ == seq![hex_char(nibble)],
{
    proof {
        reveal_strlit("0");
        reveal_strlit("1");
        reveal_strlit("2");
        reveal_strlit("3");
        reveal_strlit("4");
        reveal_strlit("5");
        reveal_strlit("6");
        reveal_strlit("7");
        reveal_strlit("8");
        reveal_strlit("9");
        reveal_strlit("a");
        reveal_strlit("b");
        reveal_strlit("c");
        reveal_strlit("d");
        reveal_strlit("e");
        reveal_strlit("f");
    }
    let digit = match nibble {
        0 => "0",
        1 => "1",
        2 => "2",
        3 => "3",
        4 => "4",
        5 => "5",
        6 => "6",
        7 => "7",
        8 => "8",
        9 => "9",
        10 => "a",
        11 => "b",
        12 => "c",
        13 => "d",
        14 => "e",
        _ => "f",
    };
    assert(digit@ =~= seq![hex_char(nibble)]);
    digit
}

/// The value of one hexadecimal digit given as a text byte.
fn to_nibble(byte: u8) -> (value: Option<u8>)
    ensures
        value == hex_value(byte),
        value matches Some(v) ==> v < 16,
{
    if 0x30 <= byte && byte <= 0x39 {
        Some(byte - 0x30)
    } else if 0x61 <= byte && byte <= 0x66 {
        Some(byte - 0x61 + 10)
    } else if 0x41 <= byte && byte <= 0x46 {
        Some(byte - 0x41 + 10)
    } else {
        None
    }
}

/// The byte that two hexadecimal digits stand for, if both are digits.
fn to_byte(high: u8, low: u8) -> (value: Option<u8>)
    ensures
        value is Some <==> hex_value(high) is Some && hex_value(low) is Some,
        value matches Some(v) ==> v == hex_value(high).unwrap() * 16 + hex_value(low).unwrap(),
{
    match (to_nibble(high), to_nibble(low)) {
        (Some(h), Some(l)) => Some(h * 16 + l),
        _ => None,
    }
}

/// Reads a text of exactly `2 * N` hexadecimal digits into `N` bytes.
fn to_bytes<const N: usize>(text: &[u8]) -> (result: Result<[u8; N], HashError>)
    ensures
        match result {
            Ok(bytes) => parse_hex(text@, N as nat) == Ok::<Seq<u8>, HashError>(bytes@),
            Err(error) => parse_hex(text@, N as nat) == Err::<Seq<u8>, HashError>(error),
        },
{
    let length = text.len();
    if N > usize::MAX / 2 || length != 2 * N {
        return Err(HashError::InvalidLength { expected: N.saturating_add(N), actual: length });
    }
    let mut bytes = [0u8; N];
    let mut i: usize = 0;
    while i < N
        invariant
            i <= N,
            text@.len() == 2 * N,
            2 * N <= usize::MAX,
            forall|j: int| 0 <= j < i ==> pair_valid(text@, j),
            forall|j: int| 0 <= j < i ==> bytes@[j] == pair_value(text@, j),
        decreases N - i,
    {
        let start = i * 2;
        match to_byte(text[start], text[start + 1]) {
            Some(value) => {
                bytes[i] = value;
            },
            None => {
                proof {
                    assert(first_invalid_pair(text@, N as nat, i as int));
                    lemma_first_invalid_pair_unique(text@, N as nat, i as int);
                }
                return Err(HashError::InvalidCharacter { position: start });
            },
        }
        i += 1;
    }
    proof {
        let n = N as nat;
        assert forall|k: int| !first_invalid_pair(text@, n, k) by {
            if 0 <= k < n {
                assert(pair_valid(text@, k));
            }
        }
        assert(bytes@ =~= Seq::new(n, |k: int| pair_value(text@, k)));
    }
    Ok(bytes)
}

/// Each hexadecimal digit reads back as its value.
proof fn lemma_hex_char_value(nibble: u8)
    requires
        nibble < 16,
    ensures
        '\0' <= hex_char(nibble) <= '\u{7f}',
        hex_value(hex_char(nibble) as u8) == Some(nibble),
{
}

/// The text form of any bytes reads back as those bytes.
pub proof fn lemma_hex_round_trip(bytes: Seq<u8>)
    ensures
        is_ascii_chars(hex_text(bytes)),
        parse_hex(encode_utf8(hex_text(bytes)), bytes.len()) == Ok::<Seq<u8>, HashError>(bytes),
{
    let chars = hex_text(bytes);
    let n = bytes.len();
    assert forall|i: int| 0 <= i < chars.len() implies '\0' <= #[trigger] chars[i] <= '\u{7f}' by {
        lemma_hex_char_value(bytes[i / 2] / 16);
        lemma_hex_char_value(bytes[i / 2] % 16);
    }
    is_ascii_chars_encode_utf8(chars);
    let text = encode_utf8(chars);
    assert forall|i: int| 0 <= i < n implies pair_valid(text, i) && pair_value(text, i)
        == bytes[i] by {
        lemma_hex_char_value(bytes[i] / 16);
        lemma_hex_char_value(bytes[i] % 16);
        assert(text[2 * i] == chars[2 * i] as u8);
        assert(text[2 * i + 1] == chars[2 * i + 1] as u8);
        assert((2 * i) / 2 == i && (2 * i + 1) / 2 == i);
    }
    assert forall|k: int| !first_invalid_pair(text, n, k) by {
        if 0 <= k < n {
            assert(pair_valid(text, k));
        }
    }
    assert(Seq::new(n, |i: int| pair_value(text, i)) =~= bytes);
}

/// At most one pair is the first invalid one, so `parse_hex` reports it.
proof fn lemma_first_invalid_pair_unique(text: Seq<u8>, n: nat, i: int)
    requires
        first_invalid_pair(text, n, i),
    ensures
        (choose|k: int| first_invalid_pair(text, n, k)) == i,
{
    let k = choose|k: int| first_invalid_pair(text, n, k);
    assert(first_invalid_pair(text, n, k));
    if k < i {
        assert(pair_valid(text, k));
    } else if i < k {
        assert(pair_valid(text, i));
    }
}

/// Some pair of the text is the first one that is not a byte in hexadecimal,
/// as soon as one of the pairs up to `bound` is not.
proof fn lemma_first_invalid_pair_exists(text: Seq<u8>, n: nat, bound: int) -> (first: int)
    requires
        0 <= bound < n,
        !pair_valid(text, bound),
    ensures
        first_invalid_pair(text, n, first),
        first <= bound,
    decreases bound,
{
    if forall|j: int| 0 <= j < bound ==> pair_valid(text, j) {
        bound
    } else {
        let j = choose|j: int| 0 <= j < bound && !pair_valid(text, j);
        lemma_first_invalid_pair_exists(text, n, j)
    }
}

/// A text of the wrong length is refused for its length, and a text of the
/// right length that holds a byte which is no hexadecimal digit is refused
/// for the first pair with such a byte.
pub proof fn lemma_parse_rejects(text: Seq<u8>, n: nat)
    requires
        text.len() <= usize::MAX,
    ensures
        text.len() != 2 * n ==> parse_hex(text, n) == Err::<Seq<u8>, HashError>(
            HashError::InvalidLength { expected: hex_len(n), actual: text.len() as usize },
        ),
        text.len() == 2 * n && (exists|k: int| 0 <= k < text.len() && hex_value(text[k]) is None)
            ==> (parse_hex(text, n) matches Err(HashError::InvalidCharacter { position })
            && position % 2 == 0 && first_invalid_pair(text, n, (position / 2) as int)),
        text.len() == 2 * n && (forall|k: int| 0 <= k < text.len() ==> hex_value(text[k]) is Some)
            ==> parse_hex(text, n) is Ok,
{
    if text.len() == 2 * n {
        if exists|k: int| 0 <= k < text.len() && hex_value(text[k]) is None {
            let k = choose|k: int| 0 <= k < text.len() && hex_value(text[k]) is None;
            assert(2 * (k / 2) == k || 2 * (k / 2) + 1 == k);
            assert(!pair_valid(text, k / 2));
            let first = lemma_first_invalid_pair_exists(text, n, k / 2);
            lemma_first_invalid_pair_unique(text, n, first);
            assert((2 * first) / 2 == first);
        }
        if forall|k: int| 0 <= k < text.len() ==> hex_value(text[k]) is Some {
            assert forall|i: int| !first_invalid_pair(text, n, i) by {
                if 0 <= i < n {
                    assert(hex_value(text[2 * i]) is Some);
                    assert(hex_value(text[2 * i + 1]) is Some);
                }
            }
        }
    }
}

/// The text form holds digits and the letters `a` to `f` only, so that it
/// has no dot and no separator of paths.
pub proof fn lemma_hex_text_plain(bytes: Seq<u8>)
    ensures
        hex_text(bytes).len() == 2 * bytes.len(),
        forall|i: int|
            0 <= i < hex_text(bytes).len() ==> hex_text(bytes)[i] != '/' && hex_text(bytes)[i]
                != '.',
{
}

/// Different bytes have different text forms.
pub proof fn lemma_hex_text_apart(first: Seq<u8>, second: Seq<u8>)
    requires
        first != second,
    ensures
        hex_text(first) != hex_text(second),
{
    lemma_hex_round_trip(first);
    lemma_hex_round_trip(second);
    if hex_text(first) == hex_text(second) {
        assert(2 * first.len() == 2 * second.len());
    }
}

/// Two sequences differ first at one index only.
pub proof fn lemma_first_difference_unique(a: Seq<u8>, b: Seq<u8>, i: int)
    requires
        differ_first_at(a, b, i),
    ensures
        a != b,
        forall|k: int| differ_first_at(a, b, k) ==> k == i,
        lex_lt(a, b) <==> a[i] < b[i],
{
    assert forall|k: int| differ_first_at(a, b, k) implies k == i by {
        if k < i {
            assert(a[k] == b[k]);
        } else if i < k {
            assert(a[i] == b[i]);
        }
    }
}

/// Two different sequences of one length differ first somewhere.
proof fn lemma_first_difference(a: Seq<u8>, b: Seq<u8>, from: int) -> (i: int)
    requires
        a.len() == b.len(),
        a != b,
        0 <= from <= a.len(),
        forall|j: int| 0 <= j < from ==> a[j] == b[j],
    ensures
        differ_first_at(a, b, i),
    decreases a.len() - from,
{
    if from == a.len() {
        assert(a =~= b);
        from
    } else if a[from] != b[from] {
        from
    } else {
        lemma_first_difference(a, b, from + 1)
    }
}

/// No sequence comes before itself.
pub proof fn lemma_lex_irreflexive(a: Seq<u8>)
    ensures
        !lex_lt(a, a),
{
}

/// Of two sequences of one length, either they are equal or exactly one comes
/// before the other.
pub proof fn lemma_lex_total(a: Seq<u8>, b: Seq<u8>)
    requires
        a.len() == b.len(),
    ensures
        a == b || lex_lt(a, b) || lex_lt(b, a),
        !(lex_lt(a, b) && lex_lt(b, a)),
        !(a == b && lex_lt(a, b)),
{
    if a != b {
        let i = lemma_first_difference(a, b, 0);
        lemma_first_difference_unique(a, b, i);
        assert(differ_first_at(b, a, i));
        lemma_first_difference_unique(b, a, i);
    }
}

/// The order is transitive.
pub proof fn lemma_lex_transitive(a: Seq<u8>, b: Seq<u8>, c: Seq<u8>)
    requires
        lex_lt(a, b),
        lex_lt(b, c),
    ensures
        lex_lt(a, c),
{
    let i = choose|i: int| differ_first_at(a, b, i) && a[i] < b[i];
    let j = choose|j: int| differ_first_at(b, c, j) && b[j] < c[j];
    if i <= j {
        assert(differ_first_at(a, c, i));
    } else {
        assert(differ_first_at(a, c, j));
    }
}

} // verus!
