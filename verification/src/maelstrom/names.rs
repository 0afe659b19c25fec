//! Names, keys and bytes as Maelstrom writes them.

use vstd::prelude::*;
use vstd::string::*;

use crate::lines::{unquote_back, unquote_front};
use crate::raft::NodeId;
use crate::text::{
    characters, digit, hex, hex_value, parse_number, parsed_number, push_hex, text_of,
};

verus! {

/// A name without the letters it starts with.
pub open spec fn without_n(s: Seq<char>) -> Seq<char>
    decreases s.len(),
{
    if s.len() > 0 && s[0] == 'n' {
        without_n(s.skip(1))
    } else {
        s
    }
}

/// The number in a node's name.
pub open spec fn number_of(name: Seq<char>) -> NodeId {
    match parsed_number(without_n(name)) {
        Some(n) => n,
        None => 0,
    }
}

/// `n1` becomes 1.
///
/// Node names are always `n` followed by a number. A malformed one becomes zero,
/// which no node campaigns as, so the failure is visible rather than silent.
pub fn numeric_id(name: &str) -> (r: NodeId)
    ensures
        r == number_of(name@),
{
    let chars: Vec<char> = characters(name);
    let mut start: usize = 0;
    proof {
        assert(name@.skip(0) =~= name@);
    }
    while start < chars.len() && chars[start] == 'n'
        invariant
            start <= chars@.len(),
            chars@ == name@,
            without_n(name@) == without_n(name@.skip(start as int)),
        decreases chars@.len() - start,
    {
        proof {
            assert(name@.skip(start as int).skip(1) =~= name@.skip(start + 1));
        }
        start += 1;
    }
    let rest: &[char] = vstd::slice::slice_subrange(chars.as_slice(), start, chars.len());
    proof {
        assert(rest@ =~= name@.skip(start as int));
    }
    match parse_number(rest) {
        Some(n) => n,
        None => 0,
    }
}

/// A key without the double quotes around it.
pub open spec fn bare_key(key: Seq<char>) -> Seq<char> {
    unquote_back(unquote_front(key))
}

/// A key without the double quotes around it.
pub fn unquoted(key: &str) -> (r: String)
    ensures
        r@ == bare_key(key@),
{
    let chars: Vec<char> = characters(key);
    let ghost all = key@;
    let mut front: usize = 0;
    proof {
        assert(all.skip(0) =~= all);
    }
    while front < chars.len() && chars[front] == '"'
        invariant
            front <= chars@.len(),
            chars@ == all,
            unquote_front(all) == unquote_front(all.skip(front as int)),
        decreases chars@.len() - front,
    {
        proof {
            assert(all.skip(front as int).skip(1) =~= all.skip(front + 1));
        }
        front += 1;
    }
    let ghost opened = all.skip(front as int);
    let mut end: usize = chars.len();
    proof {
        assert(all.subrange(front as int, all.len() as int) =~= opened);
    }
    while end > front && chars[end - 1] == '"'
        invariant
            front <= end <= chars@.len(),
            chars@ == all,
            unquote_back(opened) == unquote_back(all.subrange(front as int, end as int)),
        decreases end,
    {
        proof {
            assert(all.subrange(front as int, end as int).drop_last() =~= all.subrange(
                front as int,
                end - 1,
            ));
        }
        end -= 1;
    }
    text_of(vstd::slice::slice_subrange(chars.as_slice(), front, end))
}

// ----------------------------------------------------------------------- hex

/// Bytes as hexadecimal text.
pub fn hex_encode(bytes: &[u8]) -> (r: String)
    ensures
        r@ == hex(bytes@),
{
    let mut out = String::new();
    push_hex(&mut out, bytes);
    proof {
        assert(out@ =~= hex(bytes@));
    }
    out
}

/// What two characters are worth as hexadecimal. A plus sign in front of one
/// digit is a sign.
pub open spec fn pair_value(a: char, b: char) -> Option<u8> {
    match (hex_value(a), hex_value(b)) {
        (Some(x), Some(y)) => Some((x * 16 + y) as u8),
        (None, Some(y)) => if a == '+' {
            Some(y as u8)
        } else {
            None
        },
        _ => None,
    }
}

/// The bytes some hexadecimal text is, where it is that.
pub open spec fn hex_read(s: Seq<char>) -> Option<Seq<u8>>
    decreases s.len(),
{
    if s.len() == 0 {
        Some(Seq::empty())
    } else if s.len() % 2 == 1 {
        None
    } else {
        match (
            hex_read(s.take(s.len() - 2)),
            pair_value(s[s.len() - 2], s[s.len() - 1]),
        ) {
            (Some(before), Some(b)) => Some(before.push(b)),
            _ => None,
        }
    }
}

fn digit_value(c: char) -> (r: Option<u8>)
    ensures
        r is Some <==> hex_value(c) is Some,
        r matches Some(v) ==> v as nat == hex_value(c)->0 && v < 16,
{
    if '0' <= c && c <= '9' {
        Some((c as u32 - '0' as u32) as u8)
    } else if 'a' <= c && c <= 'f' {
        Some((c as u32 - 'a' as u32 + 10) as u8)
    } else if 'A' <= c && c <= 'F' {
        Some((c as u32 - 'A' as u32 + 10) as u8)
    } else {
        None
    }
}

fn read_pair(a: char, b: char) -> (r: Option<u8>)
    ensures
        r == pair_value(a, b),
{
    match (digit_value(a), digit_value(b)) {
        (Some(x), Some(y)) => Some(x * 16 + y),
        (None, Some(y)) => if a == '+' {
            Some(y)
        } else {
            None
        },
        _ => None,
    }
}

/// The bytes some hexadecimal text is.
pub fn hex_decode(text: &str) -> (r: Result<Vec<u8>, ()>)
    ensures
        r is Ok <==> hex_read(text@) is Some,
        r matches Ok(bytes) ==> bytes@ == hex_read(text@)->0,
{
    let chars: Vec<char> = characters(text);
    if chars.len() % 2 != 0 {
        return Err(());
    }
    let mut out: Vec<u8> = Vec::new();
    let mut i: usize = 0;
    proof {
        assert(text@.take(0) =~= Seq::empty());
        assert(out@ =~= Seq::empty());
    }
    while i < chars.len()
        invariant
            i <= chars@.len(),
            i % 2 == 0,
            chars@.len() % 2 == 0,
            chars@ == text@,
            hex_read(text@.take(i as int)) == Some(out@),
        decreases chars@.len() - i,
    {
        proof {
            let next = text@.take(i + 2);
            assert(next.take(next.len() - 2) =~= text@.take(i as int));
        }
        match read_pair(chars[i], chars[i + 1]) {
            Some(b) => {
                out.push(b);
            },
            None => {
                proof {
                    lemma_hex_read_stops(text@, i + 2);
                }
                return Err(());
            },
        }
        i += 2;
    }
    proof {
        assert(text@.take(i as int) =~= text@);
    }
    Ok(out)
}

proof fn lemma_hex_read_stops(s: Seq<char>, n: int)
    requires
        0 <= n <= s.len(),
        n % 2 == 0,
        s.len() % 2 == 0,
        hex_read(s.take(n)) is None,
    ensures
        hex_read(s) is None,
    decreases s.len() - n,
{
    if n == s.len() {
        assert(s.take(n) =~= s);
    } else {
        let next = s.take(n + 2);
        assert(next.take(next.len() - 2) =~= s.take(n));
        lemma_hex_read_stops(s, n + 2);
    }
}

/// Bytes that were written as hexadecimal are read back.
pub proof fn law_hex_is_read_back(bytes: Seq<u8>)
    ensures
        hex_read(hex(bytes)) == Some(bytes),
        hex(bytes).len() == 2 * bytes.len(),
    decreases bytes.len(),
{
    if bytes.len() > 0 {
        let head = bytes.drop_last();
        law_hex_is_read_back(head);
        let b = bytes.last();
        let text = hex(bytes);
        assert(text.take(text.len() - 2) =~= hex(head));
        assert(hex_value(digit((b / 16) as nat)) == Some((b / 16) as nat));
        assert(hex_value(digit((b % 16) as nat)) == Some((b % 16) as nat));
        assert(head.push(b) =~= bytes);
    }
}

} // verus!
