//! Collections of fixed capacity.
//!
//! The types are those of the `heapless` crate. Verus does not look inside
//! them: each kind in use has a name for what it holds, and each method that
//! is called has a contract over that name.

use vstd::prelude::*;
use vstd::utf8::encode_utf8;

verus! {

/// `heapless::Vec`: up to `N` items in a row.
#[verifier::external_type_specification]
#[verifier::external_body]
#[verifier::reject_recursive_types(T)]
pub struct ExFixedVec<T, const N: usize>(heapless::Vec<T, N>);

/// A fixed-capacity vector whose items have a name. An impl gives that name
/// and nothing else: the functions below say what becomes of it.
pub trait Items<T>: Sized {
    spec fn items(&self) -> Seq<T>;
}

/// `heapless::Vec::push`: appends the item, or leaves the vector alone and
/// says no when it already holds `N`.
#[verifier::external_body]
pub(crate) fn vec_push<T, const N: usize>(v: &mut heapless::Vec<T, N>, x: T) -> (r: bool)
    where heapless::Vec<T, N>: Items<T>,
    ensures
        r == (old(v).items().len() < N),
        final(v).items() == if r {
            old(v).items().push(x)
        } else {
            old(v).items()
        },
        final(v).items().len() <= N,
{
    v.push(x).is_ok()
}

/// `heapless::Vec::as_slice`: the items, in order, at most `N`.
#[verifier::external_body]
pub(crate) fn vec_slice<T, const N: usize>(v: &heapless::Vec<T, N>) -> (r: &[T])
    where heapless::Vec<T, N>: Items<T>,
    ensures
        r@ == v.items(),
        r@.len() <= N,
{
    v.as_slice()
}

/// `heapless::Vec::clear`: nothing is left.
#[verifier::external_body]
pub(crate) fn vec_clear<T, const N: usize>(v: &mut heapless::Vec<T, N>)
    where heapless::Vec<T, N>: Items<T>,
    ensures
        final(v).items() == Seq::<T>::empty(),
{
    v.clear()
}

/// `heapless::Vec::remove`: takes the item at `i` out, the rest closing up.
#[verifier::external_body]
pub(crate) fn vec_remove<T, const N: usize>(v: &mut heapless::Vec<T, N>, i: usize) -> (r: T)
    where heapless::Vec<T, N>: Items<T>,
    requires
        i < old(v).items().len(),
    ensures
        r == old(v).items()[i as int],
        final(v).items() == old(v).items().remove(i as int),
{
    v.remove(i)
}

/// `heapless::Vec`'s mutable indexing: puts `x` in place of the item at `i`.
#[verifier::external_body]
pub(crate) fn vec_set<T, const N: usize>(v: &mut heapless::Vec<T, N>, i: usize, x: T)
    where heapless::Vec<T, N>: Items<T>,
    requires
        i < old(v).items().len(),
    ensures
        final(v).items() == old(v).items().update(i as int, x),
{
    v[i] = x;
}

// ── Radio frames ────────────────────────────────────────────────────────────

/// The bytes of a radio frame.
pub uninterp spec fn frame_bytes(v: heapless::Vec<u8, 40>) -> Seq<u8>;

impl Items<u8> for heapless::Vec<u8, 40> {
    open spec fn items(&self) -> Seq<u8> {
        frame_bytes(*self)
    }
}

/// `heapless::Vec::new`: an empty frame.
#[verifier::external_body]
pub(crate) fn frame_new() -> (v: heapless::Vec<u8, 40>)
    ensures
        frame_bytes(v) == Seq::<u8>::empty(),
{
    heapless::Vec::new()
}

/// `heapless::Vec::extend_from_slice`: appends all the bytes, or none of
/// them when they do not all fit.
#[verifier::external_body]
pub(crate) fn frame_extend(v: &mut heapless::Vec<u8, 40>, s: &[u8]) -> (r: bool)
    ensures
        r == (frame_bytes(*old(v)).len() + s@.len() <= 40),
        frame_bytes(*final(v)) == if r {
            frame_bytes(*old(v)) + s@
        } else {
            frame_bytes(*old(v))
        },
        frame_bytes(*final(v)).len() <= 40,
{
    v.extend_from_slice(s).is_ok()
}

/// `heapless::Vec::clone`: the same bytes.
#[verifier::external_body]
pub(crate) fn frame_clone(v: &heapless::Vec<u8, 40>) -> (r: heapless::Vec<u8, 40>)
    ensures
        frame_bytes(r) == frame_bytes(*v),
{
    v.clone()
}

// ── Texts ───────────────────────────────────────────────────────────────────

/// `heapless::String`: up to `N` bytes of text.
#[verifier::external_type_specification]
#[verifier::external_body]
pub struct ExFixedString<const N: usize>(heapless::String<N>);

/// A fixed-capacity string whose characters have a name. An impl gives that
/// name and nothing else, as for [`Items`].
pub trait Text: Sized {
    spec fn chars(&self) -> Seq<char>;
}

/// The characters of a four-byte string.
pub uninterp spec fn text4(s: heapless::String<4>) -> Seq<char>;

/// The characters of a six-byte string.
pub uninterp spec fn text6(s: heapless::String<6>) -> Seq<char>;

/// The characters of a thirteen-byte string.
pub uninterp spec fn text13(s: heapless::String<13>) -> Seq<char>;

/// The characters of a sixteen-byte string.
pub uninterp spec fn text16(s: heapless::String<16>) -> Seq<char>;

/// The characters of a thirty-two-byte string.
pub uninterp spec fn text32(s: heapless::String<32>) -> Seq<char>;

/// The characters of a 48-byte string.
pub uninterp spec fn text48(s: heapless::String<48>) -> Seq<char>;

/// The characters of a 96-byte string.
pub uninterp spec fn text96(s: heapless::String<96>) -> Seq<char>;

/// The characters of a forty-byte string.
pub uninterp spec fn text40(s: heapless::String<40>) -> Seq<char>;

impl Text for heapless::String<48> {
    open spec fn chars(&self) -> Seq<char> {
        text48(*self)
    }
}

impl Text for heapless::String<96> {
    open spec fn chars(&self) -> Seq<char> {
        text96(*self)
    }
}

impl Text for heapless::String<4> {
    open spec fn chars(&self) -> Seq<char> {
        text4(*self)
    }
}

impl Text for heapless::String<6> {
    open spec fn chars(&self) -> Seq<char> {
        text6(*self)
    }
}

impl Text for heapless::String<13> {
    open spec fn chars(&self) -> Seq<char> {
        text13(*self)
    }
}

impl Text for heapless::String<16> {
    open spec fn chars(&self) -> Seq<char> {
        text16(*self)
    }
}

impl Text for heapless::String<32> {
    open spec fn chars(&self) -> Seq<char> {
        text32(*self)
    }
}

impl Text for heapless::String<40> {
    open spec fn chars(&self) -> Seq<char> {
        text40(*self)
    }
}

/// `heapless::String::as_str`: the text, at most four bytes of UTF-8.
#[verifier::external_body]
pub(crate) fn text4_str(s: &heapless::String<4>) -> (r: &str)
    ensures
        r@ == text4(*s),
        encode_utf8(r@).len() <= 4,
{
    s.as_str()
}

/// `heapless::String::new`: empty.
#[verifier::external_body]
pub(crate) fn text6_new() -> (s: heapless::String<6>)
    ensures
        text6(s) == Seq::<char>::empty(),
{
    heapless::String::new()
}

/// `heapless::String::new`: empty.
#[verifier::external_body]
pub(crate) fn text13_new() -> (s: heapless::String<13>)
    ensures
        text13(s) == Seq::<char>::empty(),
{
    heapless::String::new()
}

/// `heapless::String::new`: empty.
#[verifier::external_body]
pub(crate) fn text16_new() -> (s: heapless::String<16>)
    ensures
        text16(s) == Seq::<char>::empty(),
{
    heapless::String::new()
}

/// `heapless::String::new`: empty.
#[verifier::external_body]
pub(crate) fn text32_new() -> (s: heapless::String<32>)
    ensures
        text32(s) == Seq::<char>::empty(),
{
    heapless::String::new()
}

/// `heapless::String::new`: empty.
#[verifier::external_body]
pub(crate) fn text40_new() -> (s: heapless::String<40>)
    ensures
        text40(s) == Seq::<char>::empty(),
{
    heapless::String::new()
}

/// `heapless::String::new`: empty.
#[verifier::external_body]
pub(crate) fn text48_new() -> (s: heapless::String<48>)
    ensures
        text48(s) == Seq::<char>::empty(),
{
    heapless::String::new()
}

/// `heapless::String::new`: empty.
#[verifier::external_body]
pub(crate) fn text96_new() -> (s: heapless::String<96>)
    ensures
        text96(s) == Seq::<char>::empty(),
{
    heapless::String::new()
}

/// `heapless::String::as_str`: the text, at most `N` bytes of UTF-8.
#[verifier::external_body]
pub(crate) fn text_str<const N: usize>(s: &heapless::String<N>) -> (r: &str)
    where heapless::String<N>: Text,
    ensures
        r@ == s.chars(),
        encode_utf8(r@).len() <= N,
{
    s.as_str()
}

/// `heapless::String::push`: appends the character, or leaves the string
/// alone and says no when its bytes do not fit.
#[verifier::external_body]
pub(crate) fn text_push<const N: usize>(s: &mut heapless::String<N>, c: char) -> (r: bool)
    where heapless::String<N>: Text,
    ensures
        r == (encode_utf8(old(s).chars()).len() + encode_utf8(seq![c]).len() <= N),
        final(s).chars() == if r {
            old(s).chars().push(c)
        } else {
            old(s).chars()
        },
{
    s.push(c).is_ok()
}

/// `heapless::String::push_str`: appends the whole text, or leaves the string
/// alone and says no when its bytes do not fit.
#[verifier::external_body]
pub(crate) fn text_push_str<const N: usize>(s: &mut heapless::String<N>, t: &str) -> (r: bool)
    where heapless::String<N>: Text,
    ensures
        r == (encode_utf8(old(s).chars()).len() + encode_utf8(t@).len() <= N),
        final(s).chars() == if r {
            old(s).chars() + t@
        } else {
            old(s).chars()
        },
{
    s.push_str(t).is_ok()
}

/// `heapless::String::try_from`: a string with the text, when its bytes fit.
#[verifier::external_body]
pub(crate) fn text_try_from<const N: usize>(t: &str) -> (r: Option<heapless::String<N>>)
    where heapless::String<N>: Text,
    ensures
        match r {
            Some(s) => encode_utf8(t@).len() <= N && s.chars() == t@,
            None => encode_utf8(t@).len() > N,
        },
{
    heapless::String::try_from(t).ok()
}

/// `heapless::String::clone`: the same text.
#[verifier::external_body]
pub(crate) fn text_clone<const N: usize>(s: &heapless::String<N>) -> (r: heapless::String<N>)
    where heapless::String<N>: Text,
    ensures
        r.chars() == s.chars(),
{
    s.clone()
}

/// ASCII characters take a byte each.
pub proof fn lemma_ascii_bytes(s: Seq<char>)
    requires
        forall|i: int| 0 <= i < s.len() ==> (#[trigger] s[i] as u32) < 128,
    ensures
        encode_utf8(s).len() == s.len(),
    decreases s.len(),
{
    if s.len() > 0 {
        let t = s.drop_first();
        assert forall|i: int| 0 <= i < t.len() implies (#[trigger] t[i] as u32) < 128 by {
            assert(s[i + 1] == t[i]);
        }
        lemma_ascii_bytes(t);
        assert((s[0] as u32) < 128);
        reveal_with_fuel(encode_utf8, 2);
    }
}

}
