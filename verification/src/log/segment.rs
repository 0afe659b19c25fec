//! What a segment is called, and what its first record says.

use vstd::prelude::*;
use vstd::string::*;

use crate::log::record::{decode_first, step, Record, RecordView, SegHeader, Step, MAGIC, VERSION};
use crate::text::{
    characters, decimal, digits_value, is_digit, parse_number, parsed_number, push_zero_padded,
    repeated, unsigned_digits, zero_padded,
};

verus! {

/// The name of a segment's file.
pub open spec fn segment_file(seq: u64) -> Seq<char> {
    "seg-"@ + zero_padded(seq as nat, 10) + ".log"@
}

/// The name of a segment's file.
pub fn segment_name(seq: u64) -> (r: String)
    ensures
        r@ == segment_file(seq),
{
    let mut r = String::new();
    r.append("seg-");
    push_zero_padded(&mut r, seq, 10);
    r.append(".log");
    proof {
        assert(r@ =~= segment_file(seq));
    }
    r
}

/// The number in a segment's name, where the name is a segment's.
pub open spec fn segment_seq(name: Seq<char>) -> Option<u64> {
    if name.len() >= 8 && name.take(4) == "seg-"@ && name.skip(name.len() - 4) == ".log"@ {
        parsed_number(name.subrange(4, name.len() - 4))
    } else {
        None
    }
}

/// The number in a segment's name, where the name is a segment's.
pub fn parse_segment_seq(name: &str) -> (r: Option<u64>)
    ensures
        r == segment_seq(name@),
{
    let chars = characters(name);
    let n: usize = chars.len();
    proof {
        reveal_strlit("seg-");
        reveal_strlit(".log");
        if n >= 8 {
            let head = name@.take(4);
            let tail = name@.skip(n - 4);
            assert(head.len() == 4 && tail.len() == 4);
            if chars@[0] == 's' && chars@[1] == 'e' && chars@[2] == 'g' && chars@[3] == '-' {
                assert(head =~= "seg-"@);
            }
            if head == "seg-"@ {
                assert(head[0] == 's' && head[1] == 'e' && head[2] == 'g' && head[3] == '-');
            }
            if chars@[n - 4] == '.' && chars@[n - 3] == 'l' && chars@[n - 2] == 'o' && chars@[n - 1]
                == 'g' {
                assert(tail =~= ".log"@);
            }
            if tail == ".log"@ {
                assert(tail[0] == '.' && tail[1] == 'l' && tail[2] == 'o' && tail[3] == 'g');
            }
        }
    }
    if n < 8 || chars[0] != 's' || chars[1] != 'e' || chars[2] != 'g' || chars[3] != '-' {
        return None;
    }
    if chars[n - 4] != '.' || chars[n - 3] != 'l' || chars[n - 2] != 'o' || chars[n - 1] != 'g' {
        return None;
    }
    let digits = vstd::slice::slice_subrange(chars.as_slice(), 4, n - 4);
    proof {
        assert(digits@ =~= name@.subrange(4, n - 4));
    }
    parse_number(digits)
}

proof fn lemma_decimal_digits(n: nat)
    ensures
        decimal(n).len() > 0,
        digits_value(decimal(n)) == n,
        forall|i: int| 0 <= i < decimal(n).len() ==> is_digit(#[trigger] decimal(n)[i]),
    decreases n,
{
    let s = decimal(n);
    if n < 10 {
        assert(s.drop_last() =~= Seq::empty());
        assert(digits_value(s.drop_last()) == 0);
    } else {
        lemma_decimal_digits(n / 10);
        assert(s.drop_last() =~= decimal(n / 10));
    }
}

proof fn lemma_leading_zeros(zeros: nat, s: Seq<char>)
    ensures
        digits_value(repeated('0', zeros) + s) == digits_value(s),
    decreases s.len() + zeros,
{
    let all = repeated('0', zeros) + s;
    if s.len() > 0 {
        assert(all.drop_last() =~= repeated('0', zeros) + s.drop_last());
        assert(all.last() == s.last());
        lemma_leading_zeros(zeros, s.drop_last());
    } else if zeros > 0 {
        assert(all.drop_last() =~= repeated('0', (zeros - 1) as nat) + s);
        assert(all.last() == '0');
        lemma_leading_zeros((zeros - 1) as nat, s);
    } else {
        assert(all =~= s);
    }
}

/// A segment's name says which segment it is.
pub proof fn law_a_segment_is_found_by_its_name(seq: u64)
    ensures
        segment_seq(segment_file(seq)) == Some(seq),
{
    reveal_strlit("seg-");
    reveal_strlit(".log");
    let digits = zero_padded(seq as nat, 10);
    let name = segment_file(seq);
    let plain = decimal(seq as nat);
    lemma_decimal_digits(seq as nat);
    assert(digits.len() > 0);
    assert(name.take(4) =~= "seg-"@);
    assert(name.skip(name.len() - 4) =~= ".log"@);
    assert(name.subrange(4, name.len() - 4) =~= digits);
    if plain.len() < 10 {
        lemma_leading_zeros((10 - plain.len()) as nat, plain);
        assert forall|i: int| 0 <= i < digits.len() implies is_digit(#[trigger] digits[i]) by {
            if i >= 10 - plain.len() {
                assert(digits[i] == plain[i - (10 - plain.len())]);
            }
        }
    }
    assert(is_digit(digits[0]));
    assert(unsigned_digits(digits) == digits);
}

/// Segments with different numbers have different names.
pub proof fn law_segments_do_not_share_a_name(a: u64, b: u64)
    requires
        a != b,
    ensures
        segment_file(a) != segment_file(b),
{
    law_a_segment_is_found_by_its_name(a);
    law_a_segment_is_found_by_its_name(b);
}

/// Where a file of a directory is.
pub open spec fn path_of(dir: Seq<char>, name: Seq<char>) -> Seq<char> {
    if dir.len() == 0 || dir.last() == '/' {
        dir + name
    } else {
        dir + seq!['/'] + name
    }
}

/// Where a file of a directory is.
pub fn path_in(dir: &str, name: &str) -> (r: String)
    ensures
        r@ == path_of(dir@, name@),
{
    let mut r = String::new();
    r.append(dir);
    let n: usize = dir.unicode_len();
    if n > 0 && dir.get_char(n - 1) != '/' {
        r.push('/');
    }
    r.append(name);
    proof {
        assert(r@ =~= path_of(dir@, name@));
    }
    r
}

/// The header of a segment and where its records start, where it has one.
pub open spec fn header_of(bytes: Seq<u8>, max_record_bytes: u32) -> Option<(SegHeader, int)> {
    match step(bytes, 0, max_record_bytes) {
        Step::Record(RecordView::SegHeader(h), end) => if h.magic == MAGIC && h.version == VERSION {
            Some((h, end))
        } else {
            None
        },
        _ => None,
    }
}

/// The header of a segment and where its records start, where it has one.
pub fn read_header(bytes: &[u8], max_record_bytes: u32) -> (r: Option<(SegHeader, usize)>)
    ensures
        match r {
            Some((h, end)) => {
                &&& header_of(bytes@, max_record_bytes) == Some((h, end as int))
                &&& end <= bytes@.len()
            },
            None => header_of(bytes@, max_record_bytes) is None,
        },
{
    match decode_first(bytes, max_record_bytes) {
        Some((Record::SegHeader(h), end)) => {
            if h.magic == MAGIC && h.version == VERSION {
                Some((h, end))
            } else {
                None
            }
        },
        _ => None,
    }
}

} // verus!
