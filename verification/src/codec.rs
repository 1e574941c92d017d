use vstd::prelude::*;

use vstd::string::StrSliceExecFns;
use vstd::string::StringExecFns;

use crate::entry::{Entry, EntryModel};
use crate::error::{ErrorKind, KvsError};

verus! {

// ---------------------------------------------------------------------------
// Decimal digits
//
// Segment ids and the length prefixes of the wire format are written as
// canonical decimal numerals: no sign, no leading zero (except for the
// numeral `0` itself).
// ---------------------------------------------------------------------------

/// Is `c` a decimal digit?
pub open spec fn is_digit(c: char) -> bool {
    '0' <= c && c <= '9'
}

/// The numeric value of the digit `c`.
pub open spec fn digit_val(c: char) -> nat
    recommends
        is_digit(c),
{
    (c as u32 - 48) as nat
}

/// The digit character for a value below ten.
pub open spec fn digit_char(d: nat) -> char
    recommends
        d < 10,
{
    if d == 0 {
        '0'
    } else if d == 1 {
        '1'
    } else if d == 2 {
        '2'
    } else if d == 3 {
        '3'
    } else if d == 4 {
        '4'
    } else if d == 5 {
        '5'
    } else if d == 6 {
        '6'
    } else if d == 7 {
        '7'
    } else if d == 8 {
        '8'
    } else {
        '9'
    }
}

/// The canonical decimal numeral of `n`, most significant digit first.
pub open spec fn spec_digits(n: nat) -> Seq<char>
    decreases n,
{
    if n < 10 {
        seq![digit_char(n)]
    } else {
        spec_digits(n / 10).push(digit_char(n % 10))
    }
}

/// The value of a digit string read left to right, continuing from the
/// already-accumulated value `acc`.
pub open spec fn digits_value(ds: Seq<char>, acc: nat) -> nat
    decreases ds.len(),
{
    if ds.len() == 0 {
        acc
    } else {
        digits_value(ds.skip(1), acc * 10 + digit_val(ds[0]))
    }
}

/// Round trip of a single digit through its character.
proof fn lemma_digit_char_val(d: nat)
    requires
        d < 10,
    ensures
        is_digit(digit_char(d)),
        digit_val(digit_char(d)) == d,
{
}

/// Every character of a canonical numeral is a digit, the numeral is not
/// empty, and it starts with `'0'` only for the value zero.
pub proof fn lemma_spec_digits_shape(n: nat)
    ensures
        spec_digits(n).len() >= 1,
        forall|i: int| 0 <= i < spec_digits(n).len() ==> is_digit(#[trigger] spec_digits(n)[i]),
        spec_digits(n)[0] == '0' <==> n == 0,
        n == 0 ==> spec_digits(n) =~= seq!['0'],
    decreases n,
{
    if n < 10 {
        lemma_digit_char_val(n);
    } else {
        lemma_spec_digits_shape(n / 10);
        lemma_digit_char_val(n % 10);
    }
}

/// Reading one more digit on the right multiplies the accumulated value by
/// ten and adds that digit.
proof fn lemma_digits_value_snoc(ds: Seq<char>, d: char, acc: nat)
    ensures
        digits_value(ds.push(d), acc) == digits_value(ds, acc) * 10 + digit_val(d),
    decreases ds.len(),
{
    reveal_with_fuel(digits_value, 3);
    if ds.len() == 0 {
        assert(ds.push(d)[0] == d);
        assert(ds.push(d).skip(1) =~= Seq::<char>::empty());
    } else {
        assert(ds.push(d)[0] == ds[0]);
        assert(ds.push(d).skip(1) =~= ds.skip(1).push(d));
        lemma_digits_value_snoc(ds.skip(1), d, acc * 10 + digit_val(ds[0]));
    }
}

/// Reading the canonical numeral of `n` after an accumulated value `acc`
/// yields `acc` shifted past the numeral, plus `n`.
pub proof fn lemma_digits_value_of_spec_digits(n: nat, acc: nat)
    ensures
        digits_value(spec_digits(n), acc) == acc * pow10(spec_digits(n).len()) + n,
    decreases n,
{
    reveal_with_fuel(digits_value, 3);
    if n < 10 {
        lemma_digit_char_val(n);
        assert(spec_digits(n)[0] == digit_char(n));
        assert(spec_digits(n).skip(1) =~= Seq::<char>::empty());
        assert(pow10(1) == 10) by {
            reveal_with_fuel(pow10, 2);
        }
    } else {
        let front = spec_digits(n / 10);
        lemma_digits_value_of_spec_digits(n / 10, acc);
        lemma_digit_char_val(n % 10);
        lemma_digits_value_snoc(front, digit_char(n % 10), acc);
        // digits_value(front.push(d), acc) == (acc * pow10(|front|) + n / 10) * 10 + n % 10
        assert((acc * pow10(front.len()) + n / 10) * 10 + n % 10 == acc * (pow10(front.len())
            * 10) + ((n / 10) * 10 + n % 10)) by (nonlinear_arith);
        assert(pow10(front.len() + 1) == pow10(front.len()) * 10) by {
            lemma_pow10_step(front.len());
        }
        assert(spec_digits(n).len() == front.len() + 1);
    }
}

/// Ten to the power `k`.
pub open spec fn pow10(k: nat) -> nat
    decreases k,
{
    if k == 0 {
        1
    } else {
        10 * pow10((k - 1) as nat)
    }
}

proof fn lemma_pow10_step(k: nat)
    ensures
        pow10(k + 1) == pow10(k) * 10,
{
}

/// The value of the canonical numeral of `n` is `n` itself.
pub proof fn lemma_digits_value_round_trip(n: nat)
    ensures
        digits_value(spec_digits(n), 0) == n,
{
    lemma_digits_value_of_spec_digits(n, 0);
}

// ---------------------------------------------------------------------------
// The wire format
//
// An entry is serialized as a tag character followed by one string for a
// removal or two strings for a write; a string is its length as a canonical
// decimal numeral, a colon, and its characters verbatim:
//
//     Put(key, value)   "S" digits(|key|) ":" key digits(|value|) ":" value
//     Rm(key)           "R" digits(|key|) ":" key
//
// The length prefix makes the format self-delimiting, so entries can be
// decoded from any recorded offset without escaping, and decoding is the
// exact inverse of encoding.
// ---------------------------------------------------------------------------

/// The serialized form of one string: canonical length numeral, a colon,
/// then the characters themselves.
pub open spec fn spec_encode_string(t: Seq<char>) -> Seq<char> {
    spec_digits(t.len()) + seq![':'] + t
}

/// The serialized form of one entry.
pub open spec fn spec_encode(e: EntryModel) -> Seq<char> {
    match e {
        EntryModel::Put { key, value } => seq!['S'] + spec_encode_string(key) + spec_encode_string(
            value,
        ),
        EntryModel::Rm { key } => seq!['R'] + spec_encode_string(key),
    }
}

/// Scans digits of a length prefix from position `i` with accumulated value
/// `acc`, up to and over the terminating colon. Yields the value and the
/// position after the colon.
pub open spec fn spec_scan_number(s: Seq<char>, i: int, acc: nat) -> Option<(nat, int)>
    decreases s.len() - i,
{
    if !(0 <= i < s.len()) {
        None
    } else if s[i] == ':' {
        Some((acc, i + 1))
    } else if is_digit(s[i]) {
        spec_scan_number(s, i + 1, acc * 10 + digit_val(s[i]))
    } else {
        None
    }
}

/// Parses a length prefix at position `i`: at least one digit, no leading
/// zero (except the numeral `0` itself), then a colon.
pub open spec fn spec_parse_length(s: Seq<char>, i: int) -> Option<(nat, int)> {
    if 0 <= i < s.len() && is_digit(s[i]) && (s[i] != '0' || (i + 1 < s.len() && s[i + 1]
        == ':')) {
        spec_scan_number(s, i, 0)
    } else {
        None
    }
}

/// Parses one length-prefixed string at position `i`. Yields the string and
/// the position after it.
pub open spec fn spec_parse_string(s: Seq<char>, i: int) -> Option<(Seq<char>, int)> {
    match spec_parse_length(s, i) {
        Some((n, j)) => if j + n <= s.len() {
            Some((s.subrange(j, j + n), j + n))
        } else {
            None
        },
        None => None,
    }
}

/// Parses one entry at position `i`. Yields the entry and the position
/// after it.
pub open spec fn spec_decode_at(s: Seq<char>, i: int) -> Option<(EntryModel, int)> {
    if !(0 <= i < s.len()) {
        None
    } else if s[i] == 'S' {
        match spec_parse_string(s, i + 1) {
            Some((key, j)) => match spec_parse_string(s, j) {
                Some((value, m)) => Some((EntryModel::Put { key, value }, m)),
                None => None,
            },
            None => None,
        }
    } else if s[i] == 'R' {
        match spec_parse_string(s, i + 1) {
            Some((key, j)) => Some((EntryModel::Rm { key }, j)),
            None => None,
        }
    } else {
        None
    }
}

/// Decodes a whole segment text as exactly one entry: the parse must
/// consume every character.
pub open spec fn spec_decode(s: Seq<char>) -> Option<EntryModel> {
    match spec_decode_at(s, 0) {
        Some((e, j)) => if j == s.len() {
            Some(e)
        } else {
            None
        },
        None => None,
    }
}

/// Scanning a block of digits that ends with a colon accumulates the
/// block's value and stops after the colon.
proof fn lemma_scan_number_block(s: Seq<char>, i: int, j: int, acc: nat)
    requires
        0 <= i <= j < s.len(),
        forall|m: int| i <= m < j ==> is_digit(#[trigger] s[m]),
        s[j] == ':',
    ensures
        spec_scan_number(s, i, acc) == Some((digits_value(s.subrange(i, j), acc), j + 1)),
    decreases j - i,
{
    reveal_with_fuel(digits_value, 2);
    if i == j {
        assert(s.subrange(i, j) =~= Seq::<char>::empty());
    } else {
        lemma_scan_number_block(s, i + 1, j, acc * 10 + digit_val(s[i]));
        let block = s.subrange(i, j);
        assert(block[0] == s[i]);
        assert(block.skip(1) =~= s.subrange(i + 1, j));
    }
}

/// If a scan succeeds, the value it yields is at least the value already
/// accumulated.
proof fn lemma_scan_number_lower_bound(s: Seq<char>, i: int, acc: nat)
    ensures
        spec_scan_number(s, i, acc) matches Some((n, j)) ==> n >= acc && i < j <= s.len(),
    decreases s.len() - i,
{
    if 0 <= i < s.len() && s[i] != ':' && is_digit(s[i]) {
        lemma_scan_number_lower_bound(s, i + 1, acc * 10 + digit_val(s[i]));
        assert(acc * 10 + digit_val(s[i]) >= acc) by (nonlinear_arith);
    }
}

/// Parsing at a position that holds the serialized form of `t` yields `t`
/// and stops right after it.
proof fn lemma_parse_string_of_encoding(s: Seq<char>, i: int, t: Seq<char>)
    requires
        0 <= i,
        i + spec_encode_string(t).len() <= s.len(),
        s.subrange(i, i + spec_encode_string(t).len() as int) == spec_encode_string(t),
    ensures
        spec_parse_string(s, i) == Some((t, i + spec_encode_string(t).len() as int)),
{
    let ds = spec_digits(t.len());
    let enc = spec_encode_string(t);
    let dl = ds.len() as int;
    lemma_spec_digits_shape(t.len());
    assert(enc.len() == dl + 1 + t.len());
    assert forall|m: int| 0 <= m < enc.len() implies s[i + m] == enc[m] by {
        assert(s.subrange(i, i + enc.len() as int)[m] == enc[m]);
    }
    // the digit block
    assert forall|m: int| i <= m < i + dl implies is_digit(#[trigger] s[m]) by {
        assert(s[i + (m - i)] == enc[m - i]);
        assert(enc[m - i] == ds[m - i]);
    }
    assert(s[i + dl] == enc[dl]);
    assert(enc[dl] == ':');
    lemma_scan_number_block(s, i, i + dl, 0);
    assert(s.subrange(i, i + dl) =~= ds) by {
        assert forall|k: int| 0 <= k < dl implies s.subrange(i, i + dl)[k] == ds[k] by {
            assert(s[i + k] == enc[k]);
            assert(enc[k] == ds[k]);
        }
    }
    lemma_digits_value_of_spec_digits(t.len(), 0);
    assert(spec_scan_number(s, i, 0) == Some((t.len(), i + dl + 1)));
    // no leading zero, except for the numeral 0 followed directly by the colon
    assert(s[i + 0] == enc[0]);
    assert(enc[0] == ds[0]);
    if t.len() == 0 {
        assert(ds =~= seq!['0']);
        assert(s[i + 1] == enc[1]);
        assert(s[i] == '0' && s[i + 1] == ':');
    } else {
        assert(ds[0] != '0');
    }
    assert(spec_parse_length(s, i) == Some((t.len(), i + dl + 1)));
    // the characters themselves
    assert(s.subrange(i + dl + 1, i + dl + 1 + t.len() as int) =~= t) by {
        assert forall|k: int| 0 <= k < t.len() implies s.subrange(
            i + dl + 1,
            i + dl + 1 + t.len() as int,
        )[k] == t[k] by {
            assert(s[i + (dl + 1 + k)] == enc[dl + 1 + k]);
            assert(enc[dl + 1 + k] == t[k]);
        }
    }
}

/// Decoding an encoded entry embedded at position `i` yields that entry and
/// stops right after it.
proof fn lemma_decode_at_of_encoding(s: Seq<char>, i: int, e: EntryModel)
    requires
        0 <= i,
        i + spec_encode(e).len() <= s.len(),
        s.subrange(i, i + spec_encode(e).len() as int) == spec_encode(e),
    ensures
        spec_decode_at(s, i) == Some((e, i + spec_encode(e).len() as int)),
{
    let enc = spec_encode(e);
    assert forall|m: int| 0 <= m < enc.len() implies s[i + m] == enc[m] by {
        assert(s.subrange(i, i + enc.len() as int)[m] == enc[m]);
    }
    match e {
        EntryModel::Put { key, value } => {
            let ek = spec_encode_string(key);
            let ev = spec_encode_string(value);
            let kl = ek.len() as int;
            assert(enc.len() == 1 + kl + ev.len());
            assert(s[i + 0] == enc[0]);
            assert(enc[0] == 'S');
            assert(s.subrange(i + 1, i + 1 + kl) =~= ek) by {
                assert forall|k: int| 0 <= k < kl implies s.subrange(i + 1, i + 1 + kl)[k]
                    == ek[k] by {
                    assert(s[i + (1 + k)] == enc[1 + k]);
                    assert(enc[1 + k] == ek[k]);
                }
            }
            lemma_parse_string_of_encoding(s, i + 1, key);
            assert(s.subrange(i + 1 + kl, i + 1 + kl + ev.len() as int) =~= ev) by {
                assert forall|k: int| 0 <= k < ev.len() implies s.subrange(
                    i + 1 + kl,
                    i + 1 + kl + ev.len() as int,
                )[k] == ev[k] by {
                    assert(s[i + (1 + kl + k)] == enc[1 + kl + k]);
                    assert(enc[1 + kl + k] == ev[k]);
                }
            }
            lemma_parse_string_of_encoding(s, i + 1 + kl, value);
        },
        EntryModel::Rm { key } => {
            let ek = spec_encode_string(key);
            let kl = ek.len() as int;
            assert(enc.len() == 1 + kl);
            assert(s[i + 0] == enc[0]);
            assert(enc[0] == 'R');
            assert(s.subrange(i + 1, i + 1 + kl) =~= ek) by {
                assert forall|k: int| 0 <= k < kl implies s.subrange(i + 1, i + 1 + kl)[k]
                    == ek[k] by {
                    assert(s[i + (1 + k)] == enc[1 + k]);
                    assert(enc[1 + k] == ek[k]);
                }
            }
            lemma_parse_string_of_encoding(s, i + 1, key);
        },
    }
}

/// Round trip: decoding the serialized form of any entry yields that entry.
/// Together with [`spec_decode`] being a function, this makes decoding the
/// exact inverse of encoding.
pub proof fn lemma_decode_of_encode(e: EntryModel)
    ensures
        spec_decode(spec_encode(e)) == Some(e),
{
    let enc = spec_encode(e);
    assert(enc.subrange(0, enc.len() as int) =~= enc);
    lemma_decode_at_of_encoding(enc, 0, e);
}

/// A decoded entry is the one whose serialized form the text is: decoding
/// is injective on valid segment texts.
pub proof fn lemma_decode_unique(s: Seq<char>, e: EntryModel)
    requires
        s == spec_encode(e),
    ensures
        spec_decode(s) == Some(e),
{
    lemma_decode_of_encode(e);
}

// ---------------------------------------------------------------------------
// Executable encoding
// ---------------------------------------------------------------------------

/// The one-character string for a digit value below ten.
fn digit_str(d: u64) -> (r: &'static str)
    requires
        d < 10,
    ensures
        r@ == seq![digit_char(d as nat)],
{
    if d == 0 {
        proof {
            reveal_strlit("0");
            assert("0"@ =~= seq!['0']);
        }
        "0"
    } else if d == 1 {
        proof {
            reveal_strlit("1");
            assert("1"@ =~= seq!['1']);
        }
        "1"
    } else if d == 2 {
        proof {
            reveal_strlit("2");
            assert("2"@ =~= seq!['2']);
        }
        "2"
    } else if d == 3 {
        proof {
            reveal_strlit("3");
            assert("3"@ =~= seq!['3']);
        }
        "3"
    } else if d == 4 {
        proof {
            reveal_strlit("4");
            assert("4"@ =~= seq!['4']);
        }
        "4"
    } else if d == 5 {
        proof {
            reveal_strlit("5");
            assert("5"@ =~= seq!['5']);
        }
        "5"
    } else if d == 6 {
        proof {
            reveal_strlit("6");
            assert("6"@ =~= seq!['6']);
        }
        "6"
    } else if d == 7 {
        proof {
            reveal_strlit("7");
            assert("7"@ =~= seq!['7']);
        }
        "7"
    } else if d == 8 {
        proof {
            reveal_strlit("8");
            assert("8"@ =~= seq!['8']);
        }
        "8"
    } else {
        proof {
            reveal_strlit("9");
            assert("9"@ =~= seq!['9']);
        }
        "9"
    }
}

/// The canonical decimal numeral of `n` as a string.
pub fn digits_string(n: u64) -> (r: String)
    ensures
        r@ == spec_digits(n as nat),
    decreases n,
{
    if n < 10 {
        digit_str(n).to_owned()
    } else {
        let mut s = digits_string(n / 10);
        s.append(digit_str(n % 10));
        proof {
            assert(spec_digits((n / 10) as nat) + seq![digit_char((n % 10) as nat)]
                =~= spec_digits((n / 10) as nat).push(digit_char((n % 10) as nat)));
        }
        s
    }
}

/// Appends the serialized form of `t` (length numeral, colon, characters).
fn append_encoded_string(out: &mut String, t: &str)
    ensures
        final(out)@ == old(out)@ + spec_encode_string(t@),
{
    let len: usize = t.unicode_len();
    let ds = digits_string(len as u64);
    out.append(ds.as_str());
    out.append(":");
    out.append(t);
    proof {
        reveal_strlit(":");
        assert(":"@ =~= seq![':']);
        assert(old(out)@ + ds@ + ":"@ + t@ =~= old(out)@ + (spec_digits(t@.len()) + seq![':']
            + t@));
    }
}

/// Serializes one entry.
///
/// The result is exactly [`spec_encode`] of the entry's view, so by
/// [`lemma_decode_of_encode`] it decodes back to the same entry.
pub fn encode(entry: &Entry) -> (r: String)
    ensures
        r@ == spec_encode(entry@),
{
    match entry {
        Entry::Put(key, value) => {
            let mut s = "S".to_owned();
            append_encoded_string(&mut s, key.as_str());
            append_encoded_string(&mut s, value.as_str());
            proof {
                reveal_strlit("S");
                assert("S"@ =~= seq!['S']);
                assert(s@ =~= seq!['S'] + spec_encode_string(key@) + spec_encode_string(value@));
            }
            s
        },
        Entry::Rm(key) => {
            let mut s = "R".to_owned();
            append_encoded_string(&mut s, key.as_str());
            proof {
                reveal_strlit("R");
                assert("R"@ =~= seq!['R']);
                assert(s@ =~= seq!['R'] + spec_encode_string(key@));
            }
            s
        },
    }
}

// ---------------------------------------------------------------------------
// Executable decoding
// ---------------------------------------------------------------------------

/// Builds the error every malformed segment text is reported with.
fn serialization_error() -> (r: KvsError)
    ensures
        r.kind == ErrorKind::Serialization,
{
    KvsError::new(ErrorKind::Serialization, "Entry could not be deserialized.".to_owned())
}

/// Parses one length-prefixed string at character position `i`, mirroring
/// [`spec_parse_string`] exactly.
fn parse_string_at(s: &str, i: usize) -> (r: Result<(String, usize), KvsError>)
    ensures
        match spec_parse_string(s@, i as int) {
            Some((t, j)) => r matches Ok(p) && p.0@ == t && p.1 as int == j && j <= s@.len(),
            None => r matches Err(e) && e.kind == ErrorKind::Serialization,
        },
{
    let n = s.unicode_len();
    if i >= n {
        return Err(serialization_error());
    }
    let c0 = s.get_char(i);
    if !(c0 >= '0' && c0 <= '9') {
        return Err(serialization_error());
    }
    if c0 == '0' && !(i + 1 < n && s.get_char(i + 1) == ':') {
        // a longer numeral may not start with zero
        return Err(serialization_error());
    }
    let mut j = i;
    let mut acc: u128 = 0;
    loop
        invariant
            n as nat == s@.len(),
            i <= j <= n,
            acc <= n as u128,
            is_digit(s@[i as int]),
            s@[i as int] != '0' || (i + 1 < n && s@[i as int + 1] == ':'),
            spec_scan_number(s@, i as int, 0) == spec_scan_number(s@, j as int, acc as nat),
        decreases n - j,
    {
        if j >= n {
            // the text ended inside the length numeral
            return Err(serialization_error());
        }
        let c = s.get_char(j);
        if c == ':' {
            let start = j + 1;
            let len = acc as usize;
            if len > n - start {
                // the numeral promises more characters than the text holds
                return Err(serialization_error());
            }
            let end = start + len;
            let t = s.substring_char(start, end).to_owned();
            return Ok((t, end));
        } else if c >= '0' && c <= '9' {
            let d = (c as u32 - 48) as u128;
            let next = acc * 10 + d;
            proof {
                assert(spec_scan_number(s@, j as int, acc as nat) == spec_scan_number(
                    s@,
                    j as int + 1,
                    acc as nat * 10 + digit_val(s@[j as int]),
                ));
            }
            if next > n as u128 {
                // whatever follows, the length cannot fit the text
                proof {
                    lemma_scan_number_lower_bound(s@, j as int + 1, next as nat);
                }
                return Err(serialization_error());
            }
            acc = next;
            j = j + 1;
        } else {
            return Err(serialization_error());
        }
    }
}

/// Deserializes the one entry starting at character position `from`,
/// mirroring [`spec_decode_at`] exactly. Yields the entry together with the
/// position where it ends, so that a stream of entries can be decoded one
/// after the other and each one's exact extent recorded.
pub fn decode_at(s: &str, from: usize) -> (r: Result<(Entry, usize), KvsError>)
    ensures
        match spec_decode_at(s@, from as int) {
            Some((e, end)) => r matches Ok(p) && p.0@ == e && p.1 as int == end,
            None => r matches Err(err) && err.kind == ErrorKind::Serialization,
        },
{
    let n = s.unicode_len();
    if from >= n {
        return Err(serialization_error());
    }
    let tag = s.get_char(from);
    if tag == 'S' {
        match parse_string_at(s, from + 1) {
            Ok((key, j)) => match parse_string_at(s, j) {
                Ok((value, m)) => Ok((Entry::Put(key, value), m)),
                Err(e) => Err(e),
            },
            Err(e) => Err(e),
        }
    } else if tag == 'R' {
        match parse_string_at(s, from + 1) {
            Ok((key, j)) => Ok((Entry::Rm(key), j)),
            Err(e) => Err(e),
        }
    } else {
        Err(serialization_error())
    }
}

/// Deserializes a whole segment text as exactly one entry, mirroring
/// [`spec_decode`] exactly: the result is `Ok` if and only if the text is
/// the serialized form of an entry, and then holds that entry.
pub fn decode(s: &str) -> (r: Result<Entry, KvsError>)
    ensures
        match spec_decode(s@) {
            Some(e) => r matches Ok(entry) && entry@ == e,
            None => r matches Err(err) && err.kind == ErrorKind::Serialization,
        },
{
    let n = s.unicode_len();
    match decode_at(s, 0) {
        Ok((entry, end)) => {
            if end == n {
                Ok(entry)
            } else {
                Err(serialization_error())
            }
        },
        Err(e) => Err(e),
    }
}

} // verus!
