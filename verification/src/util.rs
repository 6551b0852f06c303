use vstd::prelude::*;
use vstd::utf8::*;

verus! {

/// How many distinct suffix characters there are.
pub const SUFFIX_COUNT: usize = 31;

/// Code point of the suffix character with the given index: the reserved
/// characters of the Tags block, without the language-tag introducer.
pub open spec fn suffix_code(index: int) -> int {
    if index == 0 {
        0xE0000
    } else {
        0xE0001 + index
    }
}

/// The suffix character with the given index.
pub open spec fn suffix_char(index: int) -> char {
    suffix_code(index) as char
}

/// The suffix selected by a salt.
pub open spec fn suffix_for(salt: usize) -> char {
    suffix_char((salt % SUFFIX_COUNT) as int)
}

/// Whether a code point is one of the suffix characters.
pub open spec fn is_suffix_code(code: int) -> bool {
    code == 0xE0000 || (0xE0002 <= code <= 0xE001F)
}

fn suffix(index: usize) -> (c: char)
    requires
        index < SUFFIX_COUNT,
    ensures
        c == suffix_char(index as int),
{
    match index {
        0 => '\u{e0000}',
        1 => '\u{e0002}',
        2 => '\u{e0003}',
        3 => '\u{e0004}',
        4 => '\u{e0005}',
        5 => '\u{e0006}',
        6 => '\u{e0007}',
        7 => '\u{e0008}',
        8 => '\u{e0009}',
        9 => '\u{e000a}',
        10 => '\u{e000b}',
        11 => '\u{e000c}',
        12 => '\u{e000d}',
        13 => '\u{e000e}',
        14 => '\u{e000f}',
        15 => '\u{e0010}',
        16 => '\u{e0011}',
        17 => '\u{e0012}',
        18 => '\u{e0013}',
        19 => '\u{e0014}',
        20 => '\u{e0015}',
        21 => '\u{e0016}',
        22 => '\u{e0017}',
        23 => '\u{e0018}',
        24 => '\u{e0019}',
        25 => '\u{e001a}',
        26 => '\u{e001b}',
        27 => '\u{e001c}',
        28 => '\u{e001d}',
        29 => '\u{e001e}',
        _ => '\u{e001f}',
    }
}

/// Appending one character appends its encoding to the encoded string.
pub proof fn lemma_encode_push(s: Seq<char>, c: char)
    ensures
        encode_utf8(s.push(c)) == encode_utf8(s) + encode_scalar(c as u32),
    decreases s.len(),
{
    if s.len() == 0 {
        assert(s.push(c).drop_first() =~= s);
        assert(encode_utf8(s.push(c).drop_first()) == Seq::<u8>::empty());
        assert(encode_utf8(s.push(c)) =~= encode_utf8(s) + encode_scalar(c as u32));
    } else {
        lemma_encode_push(s.drop_first(), c);
        assert(s.push(c).drop_first() =~= s.drop_first().push(c));
        assert(encode_utf8(s.push(c)) =~= encode_utf8(s) + encode_scalar(c as u32));
    }
}

/// Every suffix character is one of the reserved tag characters and takes
/// four bytes on the wire.
pub proof fn lemma_suffix_char(salt: usize)
    ensures
        is_suffix_code(suffix_for(salt) as int),
        encode_scalar(suffix_for(salt) as u32).len() == 4,
{
    let index = (salt % SUFFIX_COUNT) as int;
    assert(0 <= index < 31);
    assert(0xE0000 <= suffix_code(index) <= 0xE001F);
    assert(suffix_char(index) as int == suffix_code(index));
}

/// Makes a message differ from its earlier copies without changing how it
/// looks: appends the suffix character that the salt selects.
pub fn modify_message(message: &mut String, salt: usize)
    ensures
        final(message)@ == old(message)@.push(suffix_for(salt)),
        final(message)@.len() == old(message)@.len() + 1,
        is_suffix_code(final(message)@.last() as int),
        encode_utf8(final(message)@).len() == encode_utf8(old(message)@).len() + 4,
{
    proof {
        lemma_suffix_char(salt);
        lemma_encode_push(message@, suffix_for(salt));
    }
    message.push(suffix(salt % SUFFIX_COUNT));
}

} // verus!
