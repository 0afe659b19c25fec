//! The one encoding everything on a wire and on a disk uses.
//!
//! The format is postcard's: an integer is a variable-length group of seven
//! bits at a time, a sequence is its length and then its elements, an enum is
//! the position of its variant and then the variant's fields. Postcard itself
//! writes and reads the integers; what is here composes them.
//!
//! A type joins the format by implementing [`Wire`], which asks for the bytes a
//! value becomes, for what bytes are read as, and for the proofs that make a
//! codec of the two: what was written is read back, and a read that succeeded
//! does not depend on what follows the bytes it used.

use vstd::prelude::*;
use vstd::string::*;

use crate::text::{decimal, push_decimal};

verus! {

/// Why bytes are not an encoding of the value that was asked for.
#[derive(Debug)]
pub enum Malformed {
    /// An integer that ran out of bytes, or that does not fit.
    Integer,
    /// Fewer bytes than a length announced.
    End,
    /// A flag that is neither zero nor one.
    Flag(u8),
    /// A variant that the enum does not have.
    Variant(u32),
    /// Text that is not UTF-8.
    Text,
}

/// What a malformed encoding is called.
pub open spec fn malformed_text(e: Malformed) -> Seq<char> {
    match e {
        Malformed::Integer => "an integer is cut short or out of range"@,
        Malformed::End => "the bytes end early"@,
        Malformed::Flag(b) => "a flag is "@ + decimal(b as nat),
        Malformed::Variant(v) => "there is no variant "@ + decimal(v as nat),
        Malformed::Text => "text is not UTF-8"@,
    }
}

impl Malformed {
    /// What is wrong with the encoding, for a person.
    pub fn message(&self) -> (r: String)
        ensures
            r@ == malformed_text(*self),
    {
        let mut out = String::new();
        match self {
            Malformed::Integer => {
                out.append("an integer is cut short or out of range");
            },
            Malformed::End => {
                out.append("the bytes end early");
            },
            Malformed::Flag(b) => {
                out.append("a flag is ");
                push_decimal(&mut out, *b as u64);
            },
            Malformed::Variant(v) => {
                out.append("there is no variant ");
                push_decimal(&mut out, *v as u64);
            },
            Malformed::Text => {
                out.append("text is not UTF-8");
            },
        }
        proof {
            assert(out@ =~= malformed_text(*self));
        }
        out
    }
}

// ---------------------------------------------------------------- integers

/// An integer as postcard writes it: seven bits to a byte, least significant
/// first, with the top bit set on every byte but the last.
#[verifier::opaque]
pub open spec fn varint(n: nat) -> Seq<u8>
    decreases n,
{
    if n < 128 {
        seq![n as u8]
    } else {
        seq![(128 + n % 128) as u8] + varint(n / 128)
    }
}

/// Read an integer that may use up to `room` bytes, the last possible one of
/// which may be at most `top`.
#[verifier::opaque]
pub open spec fn take_varint(s: Seq<u8>, room: nat, top: u8) -> Option<(nat, Seq<u8>)>
    decreases room,
{
    if room == 0 || s.len() == 0 {
        None
    } else if s[0] < 128 {
        if room == 1 && s[0] > top {
            None
        } else {
            Some((s[0] as nat, s.skip(1)))
        }
    } else {
        match take_varint(s.skip(1), (room - 1) as nat, top) {
            Some((high, rest)) => Some(((s[0] - 128) as nat + 128 * high, rest)),
            None => None,
        }
    }
}

/// One more than the largest integer that `room` bytes can hold.
pub open spec fn varint_bound(room: nat, top: u8) -> nat
    decreases room,
{
    if room == 0 {
        0
    } else if room == 1 {
        (top + 1) as nat
    } else {
        128 * varint_bound((room - 1) as nat, top)
    }
}

proof fn lemma_varint_bound_positive(room: nat, top: u8)
    requires
        room > 0,
    ensures
        varint_bound(room, top) > 0,
    decreases room,
{
    if room > 1 {
        lemma_varint_bound_positive((room - 1) as nat, top);
    }
}

/// What was written is read back, and the bytes after it are left alone.
pub proof fn lemma_varint_read_back(n: nat, room: nat, top: u8, tail: Seq<u8>)
    requires
        top < 128,
        n < varint_bound(room, top),
    ensures
        take_varint(varint(n) + tail, room, top) == Some((n, tail)),
    decreases room,
{
    reveal(varint);
    reveal(take_varint);
    let s = varint(n) + tail;
    if n < 128 {
        assert(s[0] == n as u8);
        assert(s.skip(1) =~= tail);
    } else {
        assert(room > 1);
        assert(s[0] == (128 + n % 128) as u8);
        assert(s.skip(1) =~= varint(n / 128) + tail);
        lemma_varint_read_back(n / 128, (room - 1) as nat, top, tail);
        assert(n == n % 128 + 128 * (n / 128));
    }
}

/// An integer that was read fits, and what follows it plays no part.
pub proof fn lemma_take_varint_extends(s: Seq<u8>, room: nat, top: u8, tail: Seq<u8>)
    requires
        top < 128,
        take_varint(s, room, top) is Some,
    ensures
        ({
            let (n, rest) = take_varint(s, room, top)->0;
            &&& n < varint_bound(room, top)
            &&& rest.len() < s.len()
            &&& rest == s.skip(s.len() - rest.len())
            &&& take_varint(s + tail, room, top) == Some((n, rest + tail))
        }),
    decreases room,
{
    reveal(take_varint);
    let (n, rest) = take_varint(s, room, top)->0;
    assert((s + tail)[0] == s[0]);
    assert((s + tail).skip(1) =~= s.skip(1) + tail);
    lemma_varint_bound_positive(room, top);
    if s[0] < 128 {
        if room > 1 {
            lemma_varint_bound_positive((room - 1) as nat, top);
        }
    } else {
        lemma_take_varint_extends(s.skip(1), (room - 1) as nat, top, tail);
        assert(s.skip(1).skip(s.skip(1).len() - rest.len()) =~= s.skip(s.len() - rest.len()));
    }
}

/// An integer that fits in some bytes is written in at most that many.
pub proof fn lemma_varint_len(n: nat, room: nat, top: u8)
    requires
        top < 128,
        n < varint_bound(room, top),
    ensures
        1 <= varint(n).len() <= room,
    decreases room,
{
    reveal(varint);
    if n >= 128 {
        lemma_varint_len(n / 128, (room - 1) as nat, top);
    }
}

/// The bounds of the integer widths that the format has.
pub proof fn lemma_varint_widths()
    ensures
        varint_bound(10, 1) == 0x1_0000_0000_0000_0000,
        varint_bound(5, 15) == 0x1_0000_0000,
        varint_bound(3, 3) == 0x1_0000,
{
    reveal_with_fuel(varint_bound, 11);
}

/// `postcard::to_stdvec` of a `u64`: always succeeds, and gives the integer in
/// groups of seven bits.
#[verifier::external_body]
fn postcard_u64(v: u64) -> (r: Vec<u8>)
    ensures
        r@ == varint(v as nat),
{
    postcard::to_stdvec(&v).unwrap_or_default()
}

/// `postcard::take_from_bytes` of a `u64`: the integer at the start of the
/// bytes and what follows it, or nothing where there is none of at most ten
/// bytes that fits.
#[verifier::external_body]
fn postcard_take_u64(bytes: &[u8]) -> (r: Option<(u64, &[u8])>)
    ensures
        match r {
            Some((v, rest)) => take_varint(bytes@, 10, 1) == Some((v as nat, rest@)),
            None => take_varint(bytes@, 10, 1) is None,
        },
{
    postcard::take_from_bytes::<u64>(bytes).ok()
}

/// `postcard::take_from_bytes` of a `u32`: as for a `u64`, in at most five
/// bytes.
#[verifier::external_body]
fn postcard_take_u32(bytes: &[u8]) -> (r: Option<(u32, &[u8])>)
    ensures
        match r {
            Some((v, rest)) => take_varint(bytes@, 5, 15) == Some((v as nat, rest@)),
            None => take_varint(bytes@, 5, 15) is None,
        },
{
    postcard::take_from_bytes::<u32>(bytes).ok()
}

/// `postcard::take_from_bytes` of a `u16`: as for a `u64`, in at most three
/// bytes.
#[verifier::external_body]
fn postcard_take_u16(bytes: &[u8]) -> (r: Option<(u16, &[u8])>)
    ensures
        match r {
            Some((v, rest)) => take_varint(bytes@, 3, 3) == Some((v as nat, rest@)),
            None => take_varint(bytes@, 3, 3) is None,
        },
{
    postcard::take_from_bytes::<u16>(bytes).ok()
}

// ------------------------------------------------------------------- codec

/// A type with a place in the format.
pub trait Wire: Sized {
    /// What a value stands for, with sequences in place of vectors.
    type Model;

    spec fn model(&self) -> Self::Model;

    /// Whether some value stands for this: its lengths are lengths a machine
    /// can have.
    spec fn fits(m: Self::Model) -> bool;

    /// The bytes a value becomes.
    spec fn encoding(m: Self::Model) -> Seq<u8>;

    /// What the start of some bytes is read as, and the bytes after it.
    spec fn parse(s: Seq<u8>) -> Option<(Self::Model, Seq<u8>)>;

    /// What was written is read back, whatever follows it.
    proof fn lemma_read_back(m: Self::Model, tail: Seq<u8>)
        requires
            Self::fits(m),
        ensures
            Self::parse(Self::encoding(m) + tail) == Some((m, tail)),
    ;

    /// A read that succeeded uses a prefix, and nothing after that prefix
    /// changes it.
    proof fn lemma_extends(s: Seq<u8>, tail: Seq<u8>)
        requires
            Self::parse(s) is Some,
        ensures
            ({
                let (m, rest) = Self::parse(s)->0;
                &&& rest.len() <= s.len()
                &&& rest == s.skip(s.len() - rest.len())
                &&& Self::parse(s + tail) == Some((m, rest + tail))
            }),
    ;

    fn put(&self, out: &mut Vec<u8>)
        ensures
            final(out)@ == old(out)@ + Self::encoding(self.model()),
            Self::fits(self.model()),
    ;

    fn take(bytes: &[u8], pos: usize) -> (r: Result<(Self, usize), Malformed>)
        requires
            pos <= bytes@.len(),
        ensures
            match r {
                Ok((v, next)) => {
                    &&& pos <= next <= bytes@.len()
                    &&& Self::parse(bytes@.skip(pos as int)) == Some(
                        (v.model(), bytes@.skip(next as int)),
                    )
                },
                Err(_) => Self::parse(bytes@.skip(pos as int)) is None,
            },
    ;

    /// A second value that stands for the same.
    fn duplicate(&self) -> (r: Self)
        ensures
            r.model() == self.model(),
    ;
}

/// The bytes from a position on.
fn from_position(bytes: &[u8], pos: usize) -> (r: &[u8])
    requires
        pos <= bytes@.len(),
    ensures
        r@ == bytes@.skip(pos as int),
{
    let r = vstd::slice::slice_subrange(bytes, pos, bytes.len());
    proof {
        assert(r@ =~= bytes@.skip(pos as int));
    }
    r
}

/// Where a suffix starts, from its length.
fn position_of(bytes: &[u8], rest: &[u8]) -> (next: usize)
    requires
        rest@.len() <= bytes@.len(),
        rest@ == bytes@.skip(bytes@.len() - rest@.len()),
    ensures
        next <= bytes@.len(),
        rest@ == bytes@.skip(next as int),
        next == bytes@.len() - rest@.len(),
{
    bytes.len() - rest.len()
}

impl Wire for u64 {
    type Model = u64;

    open spec fn model(&self) -> u64 {
        *self
    }

    open spec fn fits(m: u64) -> bool {
        true
    }

    open spec fn encoding(m: u64) -> Seq<u8> {
        varint(m as nat)
    }

    open spec fn parse(s: Seq<u8>) -> Option<(u64, Seq<u8>)> {
        match take_varint(s, 10, 1) {
            Some((n, rest)) => Some((n as u64, rest)),
            None => None,
        }
    }

    proof fn lemma_read_back(m: u64, tail: Seq<u8>) {
        lemma_varint_widths();
        lemma_varint_read_back(m as nat, 10, 1, tail);
    }

    proof fn lemma_extends(s: Seq<u8>, tail: Seq<u8>) {
        lemma_take_varint_extends(s, 10, 1, tail);
    }

    fn put(&self, out: &mut Vec<u8>) {
        let mut bytes = postcard_u64(*self);
        out.append(&mut bytes);
        proof {
            assert(self.model() == *self);
            assert(out@ =~= old(out)@ + Self::encoding(*self));
        }
    }

    fn take(bytes: &[u8], pos: usize) -> (r: Result<(u64, usize), Malformed>) {
        let from = from_position(bytes, pos);
        match postcard_take_u64(from) {
            Some((v, rest)) => {
                proof {
                    lemma_take_varint_extends(from@, 10, 1, Seq::empty());
                    assert(rest@ =~= bytes@.skip(bytes@.len() - rest@.len()));
                }
                Ok((v, position_of(bytes, rest)))
            },
            None => Err(Malformed::Integer),
        }
    }

    fn duplicate(&self) -> (r: u64) {
        *self
    }
}

impl Wire for u32 {
    type Model = u32;

    open spec fn model(&self) -> u32 {
        *self
    }

    open spec fn fits(m: u32) -> bool {
        true
    }

    open spec fn encoding(m: u32) -> Seq<u8> {
        varint(m as nat)
    }

    open spec fn parse(s: Seq<u8>) -> Option<(u32, Seq<u8>)> {
        match take_varint(s, 5, 15) {
            Some((n, rest)) => Some((n as u32, rest)),
            None => None,
        }
    }

    proof fn lemma_read_back(m: u32, tail: Seq<u8>) {
        lemma_varint_widths();
        lemma_varint_read_back(m as nat, 5, 15, tail);
    }

    proof fn lemma_extends(s: Seq<u8>, tail: Seq<u8>) {
        lemma_take_varint_extends(s, 5, 15, tail);
    }

    fn put(&self, out: &mut Vec<u8>) {
        (*self as u64).put(out);
    }

    fn take(bytes: &[u8], pos: usize) -> (r: Result<(u32, usize), Malformed>) {
        let from = from_position(bytes, pos);
        match postcard_take_u32(from) {
            Some((v, rest)) => {
                proof {
                    lemma_take_varint_extends(from@, 5, 15, Seq::empty());
                    assert(rest@ =~= bytes@.skip(bytes@.len() - rest@.len()));
                }
                Ok((v, position_of(bytes, rest)))
            },
            None => Err(Malformed::Integer),
        }
    }

    fn duplicate(&self) -> (r: u32) {
        *self
    }
}

impl Wire for u16 {
    type Model = u16;

    open spec fn model(&self) -> u16 {
        *self
    }

    open spec fn fits(m: u16) -> bool {
        true
    }

    open spec fn encoding(m: u16) -> Seq<u8> {
        varint(m as nat)
    }

    open spec fn parse(s: Seq<u8>) -> Option<(u16, Seq<u8>)> {
        match take_varint(s, 3, 3) {
            Some((n, rest)) => Some((n as u16, rest)),
            None => None,
        }
    }

    proof fn lemma_read_back(m: u16, tail: Seq<u8>) {
        lemma_varint_widths();
        lemma_varint_read_back(m as nat, 3, 3, tail);
    }

    proof fn lemma_extends(s: Seq<u8>, tail: Seq<u8>) {
        lemma_take_varint_extends(s, 3, 3, tail);
    }

    fn put(&self, out: &mut Vec<u8>) {
        (*self as u64).put(out);
    }

    fn take(bytes: &[u8], pos: usize) -> (r: Result<(u16, usize), Malformed>) {
        let from = from_position(bytes, pos);
        match postcard_take_u16(from) {
            Some((v, rest)) => {
                proof {
                    lemma_take_varint_extends(from@, 3, 3, Seq::empty());
                    assert(rest@ =~= bytes@.skip(bytes@.len() - rest@.len()));
                }
                Ok((v, position_of(bytes, rest)))
            },
            None => Err(Malformed::Integer),
        }
    }

    fn duplicate(&self) -> (r: u16) {
        *self
    }
}

// -------------------------------------------------------------- other atoms

impl Wire for bool {
    type Model = bool;

    open spec fn model(&self) -> bool {
        *self
    }

    open spec fn fits(m: bool) -> bool {
        true
    }

    open spec fn encoding(m: bool) -> Seq<u8> {
        seq![if m { 1u8 } else { 0u8 }]
    }

    open spec fn parse(s: Seq<u8>) -> Option<(bool, Seq<u8>)> {
        if s.len() > 0 && s[0] <= 1 {
            Some((s[0] == 1, s.skip(1)))
        } else {
            None
        }
    }

    proof fn lemma_read_back(m: bool, tail: Seq<u8>) {
        assert((Self::encoding(m) + tail).skip(1) =~= tail);
    }

    proof fn lemma_extends(s: Seq<u8>, tail: Seq<u8>) {
        assert((s + tail).skip(1) =~= s.skip(1) + tail);
    }

    fn put(&self, out: &mut Vec<u8>) {
        if *self {
            out.push(1);
        } else {
            out.push(0);
        }
        proof {
            assert(self.model() == *self);
            assert(out@ =~= old(out)@ + Self::encoding(*self));
        }
    }

    fn take(bytes: &[u8], pos: usize) -> (r: Result<(bool, usize), Malformed>) {
        if pos == bytes.len() {
            return Err(Malformed::End);
        }
        proof {
            assert(bytes@.skip(pos as int).skip(1) =~= bytes@.skip(pos + 1));
        }
        if bytes[pos] > 1 {
            return Err(Malformed::Flag(bytes[pos]));
        }
        Ok((bytes[pos] == 1, pos + 1))
    }

    fn duplicate(&self) -> (r: bool) {
        *self
    }
}

/// A signed integer folded onto the unsigned ones, so that a small one of either
/// sign is short.
pub open spec fn zigzag(n: int) -> nat {
    if n >= 0 {
        (2 * n) as nat
    } else {
        (-2 * n - 1) as nat
    }
}

/// The signed integer that folds onto `n`.
pub open spec fn unzigzag(n: nat) -> int {
    if n % 2 == 0 {
        n as int / 2
    } else {
        -(n as int / 2) - 1
    }
}

impl Wire for i64 {
    type Model = i64;

    open spec fn model(&self) -> i64 {
        *self
    }

    open spec fn fits(m: i64) -> bool {
        true
    }

    open spec fn encoding(m: i64) -> Seq<u8> {
        varint(zigzag(m as int))
    }

    open spec fn parse(s: Seq<u8>) -> Option<(i64, Seq<u8>)> {
        match u64::parse(s) {
            Some((n, rest)) => Some((unzigzag(n as nat) as i64, rest)),
            None => None,
        }
    }

    proof fn lemma_read_back(m: i64, tail: Seq<u8>) {
        u64::lemma_read_back(zigzag(m as int) as u64, tail);
    }

    proof fn lemma_extends(s: Seq<u8>, tail: Seq<u8>) {
        u64::lemma_extends(s, tail);
    }

    fn put(&self, out: &mut Vec<u8>) {
        let folded: u64 = if *self >= 0 {
            (*self as u64) * 2
        } else {
            ((-(*self + 1)) as u64) * 2 + 1
        };
        folded.put(out);
    }

    fn take(bytes: &[u8], pos: usize) -> (r: Result<(i64, usize), Malformed>) {
        match u64::take(bytes, pos) {
            Ok((folded, next)) => {
                let half: i64 = (folded / 2) as i64;
                if folded % 2 == 0 {
                    Ok((half, next))
                } else {
                    Ok((-half - 1, next))
                }
            },
            Err(e) => Err(e),
        }
    }

    fn duplicate(&self) -> (r: i64) {
        *self
    }
}

impl Wire for usize {
    type Model = usize;

    open spec fn model(&self) -> usize {
        *self
    }

    open spec fn fits(m: usize) -> bool {
        true
    }

    open spec fn encoding(m: usize) -> Seq<u8> {
        varint(m as nat)
    }

    open spec fn parse(s: Seq<u8>) -> Option<(usize, Seq<u8>)> {
        match u64::parse(s) {
            Some((n, rest)) => if n <= usize::MAX {
                Some((n as usize, rest))
            } else {
                None
            },
            None => None,
        }
    }

    proof fn lemma_read_back(m: usize, tail: Seq<u8>) {
        u64::lemma_read_back(m as u64, tail);
    }

    proof fn lemma_extends(s: Seq<u8>, tail: Seq<u8>) {
        u64::lemma_extends(s, tail);
    }

    fn put(&self, out: &mut Vec<u8>) {
        let wide: u64 = *self as u64;
        wide.put(out);
        proof {
            assert(<usize as Wire>::fits(*self));
            assert(self.model() == *self);
            assert(u64::encoding(wide) == <usize as Wire>::encoding(*self));
        }
    }

    fn take(bytes: &[u8], pos: usize) -> (r: Result<(usize, usize), Malformed>) {
        match u64::take(bytes, pos) {
            Ok((n, next)) => {
                if n > usize::MAX as u64 {
                    Err(Malformed::End)
                } else {
                    Ok((n as usize, next))
                }
            },
            Err(e) => Err(e),
        }
    }

    fn duplicate(&self) -> (r: usize) {
        *self
    }
}

/// Bytes are their length and then themselves.
impl Wire for Vec<u8> {
    type Model = Seq<u8>;

    open spec fn model(&self) -> Seq<u8> {
        self@
    }

    open spec fn fits(m: Seq<u8>) -> bool {
        m.len() <= u64::MAX
    }

    open spec fn encoding(m: Seq<u8>) -> Seq<u8> {
        varint(m.len()) + m
    }

    open spec fn parse(s: Seq<u8>) -> Option<(Seq<u8>, Seq<u8>)> {
        match u64::parse(s) {
            Some((n, rest)) => if n <= rest.len() {
                Some((rest.take(n as int), rest.skip(n as int)))
            } else {
                None
            },
            None => None,
        }
    }

    proof fn lemma_read_back(m: Seq<u8>, tail: Seq<u8>) {
        u64::lemma_read_back(m.len() as u64, m + tail);
        assert(Self::encoding(m) + tail =~= varint(m.len()) + (m + tail));
        assert((m + tail).take(m.len() as int) =~= m);
        assert((m + tail).skip(m.len() as int) =~= tail);
    }

    proof fn lemma_extends(s: Seq<u8>, tail: Seq<u8>) {
        u64::lemma_extends(s, tail);
        let (n, rest) = u64::parse(s)->0;
        assert((rest + tail).take(n as int) =~= rest.take(n as int));
        assert((rest + tail).skip(n as int) =~= rest.skip(n as int) + tail);
        let left = rest.skip(n as int);
        assert(left =~= s.skip(s.len() - left.len()));
    }

    fn put(&self, out: &mut Vec<u8>) {
        self.len().put(out);
        out.extend_from_slice(self.as_slice());
        proof {
            assert(out@ =~= old(out)@ + Self::encoding(self@));
        }
    }

    fn take(bytes: &[u8], pos: usize) -> (r: Result<(Vec<u8>, usize), Malformed>) {
        match u64::take(bytes, pos) {
            Ok((n, next)) => {
                if n > (bytes.len() - next) as u64 {
                    return Err(Malformed::End);
                }
                let end: usize = next + n as usize;
                let data = vstd::slice::slice_to_vec(
                    vstd::slice::slice_subrange(bytes, next, end),
                );
                proof {
                    let rest = bytes@.skip(next as int);
                    assert(data@ =~= rest.take(n as int));
                    assert(bytes@.skip(end as int) =~= rest.skip(n as int));
                }
                Ok((data, end))
            },
            Err(e) => Err(e),
        }
    }

    fn duplicate(&self) -> (r: Vec<u8>) {
        vstd::slice::slice_to_vec(self.as_slice())
    }
}

/// `String::from_utf8`: the text that the bytes are in UTF-8, or nothing where
/// they are not UTF-8.
#[verifier::external_body]
pub(crate) fn text_from_utf8(bytes: Vec<u8>) -> (r: Option<String>)
    ensures
        match r {
            Some(s) => vstd::utf8::valid_utf8(bytes@) && s@ == vstd::utf8::decode_utf8(bytes@),
            None => !vstd::utf8::valid_utf8(bytes@),
        },
{
    String::from_utf8(bytes).ok()
}

/// Text is the bytes of its UTF-8.
impl Wire for String {
    type Model = Seq<char>;

    open spec fn model(&self) -> Seq<char> {
        self@
    }

    open spec fn fits(m: Seq<char>) -> bool {
        <Vec<u8> as Wire>::fits(vstd::utf8::encode_utf8(m))
    }

    open spec fn encoding(m: Seq<char>) -> Seq<u8> {
        <Vec<u8> as Wire>::encoding(vstd::utf8::encode_utf8(m))
    }

    open spec fn parse(s: Seq<u8>) -> Option<(Seq<char>, Seq<u8>)> {
        match <Vec<u8> as Wire>::parse(s) {
            Some((data, rest)) => if vstd::utf8::valid_utf8(data) {
                Some((vstd::utf8::decode_utf8(data), rest))
            } else {
                None
            },
            None => None,
        }
    }

    proof fn lemma_read_back(m: Seq<char>, tail: Seq<u8>) {
        <Vec<u8> as Wire>::lemma_read_back(vstd::utf8::encode_utf8(m), tail);
        vstd::utf8::encode_utf8_valid_utf8(m);
        vstd::utf8::encode_utf8_decode_utf8(m);
    }

    proof fn lemma_extends(s: Seq<u8>, tail: Seq<u8>) {
        <Vec<u8> as Wire>::lemma_extends(s, tail);
    }

    fn put(&self, out: &mut Vec<u8>) {
        let data = vstd::slice::slice_to_vec(self.as_str().as_bytes());
        data.put(out);
    }

    fn take(bytes: &[u8], pos: usize) -> (r: Result<(String, usize), Malformed>) {
        match <Vec<u8> as Wire>::take(bytes, pos) {
            Ok((data, next)) => match text_from_utf8(data) {
                Some(text) => Ok((text, next)),
                None => Err(Malformed::Text),
            },
            Err(e) => Err(e),
        }
    }

    fn duplicate(&self) -> (r: String) {
        self.clone()
    }
}

// ------------------------------------------------------------ composed types

/// What may be absent is a flag and then itself.
impl<T: Wire> Wire for Option<T> {
    type Model = Option<T::Model>;

    open spec fn model(&self) -> Option<T::Model> {
        match self {
            Some(v) => Some(v.model()),
            None => None,
        }
    }

    open spec fn fits(m: Option<T::Model>) -> bool {
        m is Some ==> T::fits(m->0)
    }

    open spec fn encoding(m: Option<T::Model>) -> Seq<u8> {
        match m {
            Some(v) => bool::encoding(true) + T::encoding(v),
            None => bool::encoding(false),
        }
    }

    open spec fn parse(s: Seq<u8>) -> Option<(Option<T::Model>, Seq<u8>)> {
        match bool::parse(s) {
            Some((true, rest)) => match T::parse(rest) {
                Some((v, rest)) => Some((Some(v), rest)),
                None => None,
            },
            Some((false, rest)) => Some((None, rest)),
            None => None,
        }
    }

    proof fn lemma_read_back(m: Option<T::Model>, tail: Seq<u8>) {
        match m {
            Some(v) => {
                assert(Self::encoding(m) + tail =~= bool::encoding(true) + (T::encoding(v) + tail));
                bool::lemma_read_back(true, T::encoding(v) + tail);
                T::lemma_read_back(v, tail);
            },
            None => {
                bool::lemma_read_back(false, tail);
            },
        }
    }

    proof fn lemma_extends(s: Seq<u8>, tail: Seq<u8>) {
        bool::lemma_extends(s, tail);
        let (present, rest) = bool::parse(s)->0;
        if present {
            T::lemma_extends(rest, tail);
            let left = (T::parse(rest)->0).1;
            assert(left =~= s.skip(s.len() - left.len()));
        }
    }

    fn put(&self, out: &mut Vec<u8>) {
        match self {
            Some(v) => {
                true.put(out);
                v.put(out);
                proof {
                    assert(out@ =~= old(out)@ + Self::encoding(self.model()));
                }
            },
            None => {
                false.put(out);
            },
        }
    }

    fn take(bytes: &[u8], pos: usize) -> (r: Result<(Option<T>, usize), Malformed>) {
        match bool::take(bytes, pos) {
            Ok((present, next)) => {
                if present {
                    match T::take(bytes, next) {
                        Ok((v, next)) => Ok((Some(v), next)),
                        Err(e) => Err(e),
                    }
                } else {
                    Ok((None, next))
                }
            },
            Err(e) => Err(e),
        }
    }

    fn duplicate(&self) -> (r: Option<T>) {
        match self {
            Some(v) => Some(v.duplicate()),
            None => None,
        }
    }
}

/// Two fields, one after the other.
impl<A: Wire, B: Wire> Wire for (A, B) {
    type Model = (A::Model, B::Model);

    open spec fn model(&self) -> (A::Model, B::Model) {
        (self.0.model(), self.1.model())
    }

    open spec fn fits(m: (A::Model, B::Model)) -> bool {
        A::fits(m.0) && B::fits(m.1)
    }

    open spec fn encoding(m: (A::Model, B::Model)) -> Seq<u8> {
        A::encoding(m.0) + B::encoding(m.1)
    }

    open spec fn parse(s: Seq<u8>) -> Option<((A::Model, B::Model), Seq<u8>)> {
        match A::parse(s) {
            Some((a, rest)) => match B::parse(rest) {
                Some((b, rest)) => Some(((a, b), rest)),
                None => None,
            },
            None => None,
        }
    }

    proof fn lemma_read_back(m: (A::Model, B::Model), tail: Seq<u8>) {
        assert(Self::encoding(m) + tail =~= A::encoding(m.0) + (B::encoding(m.1) + tail));
        A::lemma_read_back(m.0, B::encoding(m.1) + tail);
        B::lemma_read_back(m.1, tail);
    }

    proof fn lemma_extends(s: Seq<u8>, tail: Seq<u8>) {
        A::lemma_extends(s, tail);
        let rest = (A::parse(s)->0).1;
        B::lemma_extends(rest, tail);
        let left = (B::parse(rest)->0).1;
        assert(left =~= s.skip(s.len() - left.len()));
    }

    fn put(&self, out: &mut Vec<u8>) {
        self.0.put(out);
        self.1.put(out);
        proof {
            assert(out@ =~= old(out)@ + Self::encoding(self.model()));
        }
    }

    fn take(bytes: &[u8], pos: usize) -> (r: Result<((A, B), usize), Malformed>) {
        match A::take(bytes, pos) {
            Ok((a, next)) => match B::take(bytes, next) {
                Ok((b, next)) => Ok(((a, b), next)),
                Err(e) => Err(e),
            },
            Err(e) => Err(e),
        }
    }

    fn duplicate(&self) -> (r: (A, B)) {
        (self.0.duplicate(), self.1.duplicate())
    }
}

/// What each element of a sequence stands for.
pub open spec fn models<T: Wire>(items: Seq<T>) -> Seq<T::Model> {
    items.map_values(|item: T| item.model())
}

/// The elements of a sequence, one after the other.
pub open spec fn elements_encoding<T: Wire>(items: Seq<T::Model>) -> Seq<u8>
    decreases items.len(),
{
    if items.len() == 0 {
        Seq::empty()
    } else {
        T::encoding(items[0]) + elements_encoding::<T>(items.skip(1))
    }
}

/// Read `count` elements.
pub open spec fn parse_elements<T: Wire>(s: Seq<u8>, count: nat) -> Option<
    (Seq<T::Model>, Seq<u8>),
>
    decreases count,
{
    if count == 0 {
        Some((Seq::empty(), s))
    } else {
        match T::parse(s) {
            Some((first, rest)) => match parse_elements::<T>(rest, (count - 1) as nat) {
                Some((others, rest)) => Some((seq![first] + others, rest)),
                None => None,
            },
            None => None,
        }
    }
}

proof fn lemma_elements_encoding_push<T: Wire>(items: Seq<T::Model>, last: T::Model)
    ensures
        elements_encoding::<T>(items.push(last)) == elements_encoding::<T>(items) + T::encoding(
            last,
        ),
    decreases items.len(),
{
    if items.len() == 0 {
        let none = items.push(last).skip(1);
        assert(none.len() == 0);
        assert(elements_encoding::<T>(none) =~= Seq::empty());
        assert(elements_encoding::<T>(items.push(last)) =~= T::encoding(last));
        assert(elements_encoding::<T>(items) + T::encoding(last) =~= T::encoding(last));
    } else {
        assert(items.push(last).skip(1) =~= items.skip(1).push(last));
        lemma_elements_encoding_push::<T>(items.skip(1), last);
        assert(elements_encoding::<T>(items.push(last)) =~= elements_encoding::<T>(items)
            + T::encoding(last));
    }
}

proof fn lemma_elements_read_back<T: Wire>(items: Seq<T::Model>, tail: Seq<u8>)
    requires
        forall|i: int| 0 <= i < items.len() ==> T::fits(#[trigger] items[i]),
    ensures
        parse_elements::<T>(elements_encoding::<T>(items) + tail, items.len()) == Some(
            (items, tail),
        ),
    decreases items.len(),
{
    if items.len() == 0 {
        assert(elements_encoding::<T>(items) + tail =~= tail);
        assert(items =~= Seq::empty());
    } else {
        let others = elements_encoding::<T>(items.skip(1));
        assert(elements_encoding::<T>(items) + tail =~= T::encoding(items[0]) + (others + tail));
        T::lemma_read_back(items[0], others + tail);
        assert forall|i: int| 0 <= i < items.skip(1).len() implies T::fits(
            #[trigger] items.skip(1)[i],
        ) by {
            assert(items.skip(1)[i] == items[i + 1]);
        }
        lemma_elements_read_back::<T>(items.skip(1), tail);
        assert(seq![items[0]] + items.skip(1) =~= items);
    }
}

proof fn lemma_elements_extend<T: Wire>(s: Seq<u8>, count: nat, tail: Seq<u8>)
    requires
        parse_elements::<T>(s, count) is Some,
    ensures
        ({
            let (items, rest) = parse_elements::<T>(s, count)->0;
            &&& rest.len() <= s.len()
            &&& rest == s.skip(s.len() - rest.len())
            &&& parse_elements::<T>(s + tail, count) == Some((items, rest + tail))
        }),
    decreases count,
{
    if count == 0 {
        assert(s.skip(0) =~= s);
    } else {
        T::lemma_extends(s, tail);
        let rest = (T::parse(s)->0).1;
        lemma_elements_extend::<T>(rest, (count - 1) as nat, tail);
        let left = (parse_elements::<T>(rest, (count - 1) as nat)->0).1;
        assert(left =~= s.skip(s.len() - left.len()));
    }
}

/// A sequence is its length and then its elements.
impl<T: Wire> Wire for Vec<T> {
    type Model = Seq<T::Model>;

    open spec fn model(&self) -> Seq<T::Model> {
        models(self@)
    }

    open spec fn fits(m: Seq<T::Model>) -> bool {
        &&& m.len() <= u64::MAX
        &&& forall|i: int| 0 <= i < m.len() ==> T::fits(#[trigger] m[i])
    }

    open spec fn encoding(m: Seq<T::Model>) -> Seq<u8> {
        varint(m.len()) + elements_encoding::<T>(m)
    }

    open spec fn parse(s: Seq<u8>) -> Option<(Seq<T::Model>, Seq<u8>)> {
        match u64::parse(s) {
            Some((n, rest)) => parse_elements::<T>(rest, n as nat),
            None => None,
        }
    }

    proof fn lemma_read_back(m: Seq<T::Model>, tail: Seq<u8>) {
        let elements = elements_encoding::<T>(m);
        assert(Self::encoding(m) + tail =~= varint(m.len()) + (elements + tail));
        u64::lemma_read_back(m.len() as u64, elements + tail);
        lemma_elements_read_back::<T>(m, tail);
    }

    proof fn lemma_extends(s: Seq<u8>, tail: Seq<u8>) {
        u64::lemma_extends(s, tail);
        let (n, rest) = u64::parse(s)->0;
        lemma_elements_extend::<T>(rest, n as nat, tail);
        let left = (parse_elements::<T>(rest, n as nat)->0).1;
        assert(left =~= s.skip(s.len() - left.len()));
    }

    fn put(&self, out: &mut Vec<u8>) {
        self.len().put(out);
        let mut i: usize = 0;
        proof {
            assert(models(self@).take(0) =~= Seq::empty());
            assert(out@ =~= old(out)@ + varint(self@.len()) + elements_encoding::<T>(
                models(self@).take(0),
            ));
        }
        while i < self.len()
            invariant
                i <= self@.len(),
                out@ == old(out)@ + varint(self@.len()) + elements_encoding::<T>(
                    models(self@).take(i as int),
                ),
                forall|j: int| 0 <= j < i ==> T::fits(#[trigger] models(self@)[j]),
            decreases self@.len() - i,
        {
            self[i].put(out);
            proof {
                let before = models(self@).take(i as int);
                assert(models(self@).take(i + 1) =~= before.push(models(self@)[i as int]));
                lemma_elements_encoding_push::<T>(before, models(self@)[i as int]);
                assert(out@ =~= old(out)@ + varint(self@.len()) + elements_encoding::<T>(
                    models(self@).take(i + 1),
                ));
            }
            i += 1;
        }
        proof {
            assert(models(self@).take(i as int) =~= models(self@));
            assert(out@ =~= old(out)@ + Self::encoding(self.model()));
        }
    }

    fn take(bytes: &[u8], pos: usize) -> (r: Result<(Vec<T>, usize), Malformed>) {
        match u64::take(bytes, pos) {
            Ok((count, start)) => {
                let mut items: Vec<T> = Vec::new();
                let mut next: usize = start;
                let mut left: u64 = count;
                proof {
                    assert(models(items@) =~= Seq::empty());
                    let from = parse_elements::<T>(bytes@.skip(start as int), count as nat);
                    if from is Some {
                        assert(models(items@) + (from->0).0 =~= (from->0).0);
                    }
                }
                while left > 0
                    invariant
                        pos <= start <= next <= bytes@.len(),
                        left <= count,
                        u64::parse(bytes@.skip(pos as int)) == Some(
                            (count, bytes@.skip(start as int)),
                        ),
                        parse_elements::<T>(bytes@.skip(start as int), count as nat) == (
                        match parse_elements::<T>(bytes@.skip(next as int), left as nat) {
                            Some((others, rest)) => Some((models(items@) + others, rest)),
                            None => None,
                        }),
                    decreases left,
                {
                    match T::take(bytes, next) {
                        Ok((item, after)) => {
                            let ghost before = items@;
                            items.push(item);
                            proof {
                                assert(models(items@) =~= models(before).push(item.model()));
                                let more = parse_elements::<T>(
                                    bytes@.skip(after as int),
                                    (left - 1) as nat,
                                );
                                if more is Some {
                                    assert(models(before) + (seq![item.model()] + (more->0).0)
                                        =~= models(items@) + (more->0).0);
                                }
                            }
                            next = after;
                            left -= 1;
                        },
                        Err(e) => {
                            return Err(e);
                        },
                    }
                }
                proof {
                    assert(models(items@) + Seq::<T::Model>::empty() =~= models(items@));
                }
                Ok((items, next))
            },
            Err(e) => Err(e),
        }
    }

    fn duplicate(&self) -> (r: Vec<T>) {
        let mut r: Vec<T> = Vec::new();
        let mut i: usize = 0;
        while i < self.len()
            invariant
                i <= self@.len(),
                r@.len() == i,
                forall|j: int| 0 <= j < i ==> (#[trigger] r@[j]).model() == self@[j].model(),
            decreases self@.len() - i,
        {
            r.push(self[i].duplicate());
            i += 1;
        }
        proof {
            assert(models(r@) =~= models(self@));
        }
        r
    }
}

} // verus!
