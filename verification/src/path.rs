use vstd::prelude::*;

use vstd::string::StrSliceExecFns;
use vstd::string::StringExecFns;

use crate::codec::{digit_val, digits_string, digits_value, is_digit, spec_digits};
use crate::codec::{lemma_digits_value_round_trip, lemma_spec_digits_shape};
use crate::error::{ErrorKind, KvsError};

verus! {

/// The file name of segment `id` within the store directory: `<id>.log`.
pub open spec fn spec_segment_file_name(id: nat) -> Seq<char> {
    spec_digits(id) + seq!['.', 'l', 'o', 'g']
}

/// The segment id a file name denotes: at least one digit whose value fits
/// a `u64`, followed by the `.log` suffix. Any other name is foreign to the
/// store directory.
pub open spec fn spec_parse_segment_id(name: Seq<char>) -> Option<nat> {
    let stem = name.take(name.len() - 4);
    if name.len() >= 5 && name.subrange(name.len() - 4, name.len() as int) == seq![
        '.',
        'l',
        'o',
        'g',
    ] && (forall|i: int| 0 <= i < stem.len() ==> is_digit(#[trigger] stem[i])) && digits_value(
        stem,
        0,
    ) <= u64::MAX {
        Some(digits_value(stem, 0))
    } else {
        None
    }
}

/// A file named after a segment id parses back to that id.
pub proof fn lemma_segment_file_name_round_trip(id: nat)
    requires
        id <= u64::MAX,
    ensures
        spec_parse_segment_id(spec_segment_file_name(id)) == Some(id),
{
    let name = spec_segment_file_name(id);
    let ds = spec_digits(id);
    lemma_spec_digits_shape(id);
    assert(name.take(name.len() - 4) =~= ds);
    assert(name.subrange(name.len() - 4, name.len() as int) =~= seq!['.', 'l', 'o', 'g']);
    lemma_digits_value_round_trip(id);
}

/// Segment file names are injective in the id.
pub proof fn lemma_segment_file_name_injective(a: nat, b: nat)
    requires
        a <= u64::MAX,
        b <= u64::MAX,
        spec_segment_file_name(a) == spec_segment_file_name(b),
    ensures
        a == b,
{
    lemma_segment_file_name_round_trip(a);
    lemma_segment_file_name_round_trip(b);
}

/// Builds the file name `<file_index>.log` of a segment.
pub fn segment_file_name(file_index: u64) -> (r: String)
    ensures
        r@ == spec_segment_file_name(file_index as nat),
{
    let mut name = digits_string(file_index);
    name.append(".log");
    proof {
        reveal_strlit(".log");
        assert(".log"@ =~= seq!['.', 'l', 'o', 'g']);
    }
    name
}

/// How many digits remain must only grow the accumulated value.
proof fn lemma_digits_value_lower_bound(ds: Seq<char>, acc: nat)
    ensures
        digits_value(ds, acc) >= acc,
    decreases ds.len(),
{
    if ds.len() > 0 {
        assert(acc * 10 + digit_val(ds[0]) >= acc) by (nonlinear_arith);
        lemma_digits_value_lower_bound(ds.skip(1), acc * 10 + digit_val(ds[0]));
    }
}

/// Extracts the number from a given file stem.
pub trait ParsePath {
    /// The characters of the path this value denotes.
    spec fn path_chars(&self) -> Seq<char>;

    /// Extracts the number from a given file stem.
    /// For example, the file name "123.log" yields `123`.
    fn parse_number_from_path(&self) -> (r: Result<u64, KvsError>)
        ensures
            match spec_parse_segment_id(self.path_chars()) {
                Some(id) => r matches Ok(v) && v as nat == id,
                None => r matches Err(e) && e.kind == ErrorKind::PathFormat,
            },
    ;
}

/// Builds the error every foreign file name is reported with.
fn path_format_error() -> (r: KvsError)
    ensures
        r.kind == ErrorKind::PathFormat,
{
    KvsError::new(ErrorKind::PathFormat, "File name is not a segment id.".to_owned())
}

impl ParsePath for String {
    open spec fn path_chars(&self) -> Seq<char> {
        self@
    }

    fn parse_number_from_path(&self) -> (r: Result<u64, KvsError>) {
        let s = self.as_str();
        let n = s.unicode_len();
        if n < 5 {
            return Err(path_format_error());
        }
        // the `.log` suffix
        if !(s.get_char(n - 4) == '.' && s.get_char(n - 3) == 'l' && s.get_char(n - 2) == 'o'
            && s.get_char(n - 1) == 'g') {
            proof {
                let suffix = s@.subrange(n - 4, n as int);
                assert(suffix[0] == s@[n - 4] && suffix[1] == s@[n - 3] && suffix[2] == s@[n - 2]
                    && suffix[3] == s@[n - 1]);
            }
            return Err(path_format_error());
        }
        proof {
            assert(s@.subrange(n - 4, n as int) =~= seq!['.', 'l', 'o', 'g']);
        }
        let ghost stem = s@.take(n - 4);
        proof {
            assert(stem.skip(0) =~= stem);
        }
        let mut k: usize = 0;
        let mut acc: u128 = 0;
        while k < n - 4
            invariant
                s@ == self@,
                n as nat == s@.len(),
                5 <= n,
                k <= n - 4,
                stem == s@.take(n - 4),
                s@.subrange(n - 4, n as int) == seq!['.', 'l', 'o', 'g'],
                acc <= u64::MAX,
                forall|i: int| 0 <= i < k ==> is_digit(#[trigger] stem[i]),
                digits_value(stem, 0) == digits_value(stem.skip(k as int), acc as nat),
            decreases n - 4 - k,
        {
            let c = s.get_char(k);
            proof {
                assert(stem[k as int] == s@[k as int]);
            }
            if !(c >= '0' && c <= '9') {
                proof {
                    assert(!is_digit(stem[k as int]));
                }
                return Err(path_format_error());
            }
            let next = acc * 10 + (c as u32 - 48) as u128;
            proof {
                assert(stem.skip(k as int)[0] == stem[k as int]);
                assert(stem.skip(k as int).skip(1) =~= stem.skip(k as int + 1));
                assert(digits_value(stem.skip(k as int), acc as nat) == digits_value(
                    stem.skip(k as int + 1),
                    acc as nat * 10 + digit_val(stem[k as int]),
                ));
            }
            if next > u64::MAX as u128 {
                proof {
                    lemma_digits_value_lower_bound(stem.skip(k as int + 1), next as nat);
                    assert(digits_value(stem, 0) > u64::MAX);
                }
                return Err(path_format_error());
            }
            acc = next;
            k = k + 1;
        }
        proof {
            assert(stem.skip(n - 4) =~= Seq::<char>::empty());
        }
        Ok(acc as u64)
    }
}

} // verus!
