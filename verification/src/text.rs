//! Prefix matching on strings, carried out on their UTF-8 bytes and stated
//! over their characters.

use vstd::prelude::*;
use vstd::string::*;
use vstd::utf8::*;

verus! {

/// The first `k` characters exist and are all ASCII.
pub open spec fn ascii_head(chars: Seq<char>, k: nat) -> bool {
    &&& chars.len() >= k
    &&& forall|i: int| 0 <= i < k ==> (#[trigger] chars[i]) as u32 <= 0x7f
}

/// The first `k` bytes exist and all have their high bit clear.
pub open spec fn low_head(bytes: Seq<u8>, k: nat) -> bool {
    &&& bytes.len() >= k
    &&& forall|i: int| 0 <= i < k ==> #[trigger] bytes[i] < 0x80
}

proof fn lemma_ascii_char_byte(c: char)
    ensures
        c as u32 <= 0x7f ==> (c as u32) as u8 == c as u8 && (c as u8) as u32 == c as u32,
{
}

proof fn lemma_encode_ascii_scalar(s: u32)
    requires
        s <= 0x7f,
    ensures
        encode_scalar(s) == seq![s as u8],
        (s as u8) < 0x80,
{
    assert(s as u8 == leading_byte_width_1(s)) by (bit_vector)
        requires
            s <= 0x7f,
    ;
    assert((s as u8) < 0x80) by (bit_vector)
        requires
            s <= 0x7f,
    ;
}

/// A string starts with `k` ASCII characters exactly when its encoding
/// starts with `k` bytes below `0x80`; those bytes are then the characters,
/// and what follows them encodes what follows the characters.
pub proof fn lemma_ascii_head_bytes(chars: Seq<char>, k: nat)
    ensures
        ascii_head(chars, k) <==> low_head(encode_utf8(chars), k),
        ascii_head(chars, k) ==> {
            &&& forall|i: int| 0 <= i < k ==> #[trigger] encode_utf8(chars)[i] == chars[i] as u8
            &&& encode_utf8(chars).skip(k as int) == encode_utf8(chars.skip(k as int))
            &&& is_char_boundary(encode_utf8(chars), k as int)
        },
    decreases k,
{
    let bytes = encode_utf8(chars);
    encode_utf8_valid_utf8(chars);
    if k == 0 {
        assert(bytes.skip(0) =~= bytes);
        assert(chars.skip(0) =~= chars);
    } else if chars.len() == 0 {
    } else {
        let c = chars[0] as u32;
        let rest = chars.drop_first();
        let tail = encode_utf8(rest);
        lemma_ascii_head_bytes(rest, (k - 1) as nat);
        if c <= 0x7f {
            lemma_encode_ascii_scalar(c);
            assert(bytes =~= seq![c as u8] + tail);
            if ascii_head(chars, k) {
                assert forall|i: int| 0 <= i < k - 1 implies (#[trigger] rest[i]) as u32
                    <= 0x7f by {
                    assert(rest[i] == chars[i + 1]);
                }
            }
            if low_head(bytes, k) {
                assert forall|i: int| 0 <= i < k - 1 implies #[trigger] tail[i] < 0x80 by {
                    assert(tail[i] == bytes[i + 1]);
                }
            }
            if ascii_head(rest, (k - 1) as nat) {
                assert forall|i: int| 0 <= i < k implies (#[trigger] chars[i]) as u32
                    <= 0x7f by {
                    if i > 0 {
                        assert(chars[i] == rest[i - 1]);
                    }
                }
                assert forall|i: int| 0 <= i < k implies #[trigger] bytes[i] == chars[i] as u8 by {
                    if i > 0 {
                        assert(bytes[i] == tail[i - 1]);
                        assert(chars[i] == rest[i - 1]);
                    } else {
                        lemma_ascii_char_byte(chars[0]);
                    }
                }
                assert(bytes.skip(k as int) =~= tail.skip(k - 1));
                assert(chars.skip(k as int) =~= rest.skip(k - 1));
                encode_utf8_first_scalar(chars);
                assert(pop_first_scalar(bytes) =~= tail);
                reveal_with_fuel(is_char_boundary, 2);
            }
        } else {
            lemma_wide_scalar_bytes(c);
            assert(bytes[0] == encode_scalar(c)[0]);
        }
    }
}

proof fn lemma_ascii_chars_equal(a: char, b: char)
    requires
        a as u32 <= 0x7f,
        b as u32 <= 0x7f,
        a as u8 == b as u8,
    ensures
        a == b,
{
}

/// Every character of an ASCII string is an ASCII head of it, and its
/// encoding is the characters themselves.
proof fn lemma_ascii_tag(tag: Seq<char>)
    requires
        is_ascii_chars(tag),
    ensures
        ascii_head(tag, tag.len()),
        encode_utf8(tag).len() == tag.len(),
        forall|i: int| 0 <= i < tag.len() ==> #[trigger] encode_utf8(tag)[i] == tag[i] as u8,
{
    is_ascii_chars_encode_utf8(tag);
    assert forall|i: int| 0 <= i < tag.len() implies (#[trigger] tag[i]) as u32 <= 0x7f by {
        lemma_ascii_char_byte(tag[i]);
    }
}

/// Where an ASCII `tag` stands at the start of `line`, the bytes of `line`
/// start with the bytes of `tag`.
proof fn lemma_prefix_gives_bytes(line: Seq<char>, tag: Seq<char>)
    requires
        is_ascii_chars(tag),
        tag.is_prefix_of(line),
    ensures
        encode_utf8(line).len() >= tag.len(),
        forall|i: int|
            0 <= i < tag.len() ==> #[trigger] encode_utf8(line)[i] == encode_utf8(tag)[i],
{
    let k = tag.len();
    lemma_ascii_tag(tag);
    assert forall|i: int| 0 <= i < k implies (#[trigger] line[i]) as u32 <= 0x7f by {
        assert(line[i] == line.subrange(0, k as int)[i]);
    }
    assert(ascii_head(line, k));
    lemma_ascii_head_bytes(line, k);
    assert forall|i: int| 0 <= i < k implies #[trigger] encode_utf8(line)[i] == encode_utf8(
        tag,
    )[i] by {
        assert(line[i] == line.subrange(0, k as int)[i]);
    }
}

/// Where the bytes of `line` start with the bytes of an ASCII `tag`, `tag`
/// stands at the start of `line`, and the bytes after it encode the
/// characters after it.
proof fn lemma_bytes_give_prefix(line: Seq<char>, tag: Seq<char>)
    requires
        is_ascii_chars(tag),
        encode_utf8(line).len() >= tag.len(),
        forall|i: int|
            0 <= i < tag.len() ==> #[trigger] encode_utf8(line)[i] == encode_utf8(tag)[i],
    ensures
        tag.is_prefix_of(line),
        is_char_boundary(encode_utf8(line), tag.len() as int),
        encode_utf8(line).skip(tag.len() as int) == encode_utf8(line.skip(tag.len() as int)),
{
    let k = tag.len();
    let bytes = encode_utf8(line);
    lemma_ascii_tag(tag);
    assert forall|i: int| 0 <= i < k implies #[trigger] bytes[i] < 0x80 by {
        lemma_ascii_char_byte(tag[i]);
        assert(bytes[i] == encode_utf8(tag)[i]);
    }
    assert(low_head(bytes, k));
    lemma_ascii_head_bytes(line, k);
    assert forall|i: int| 0 <= i < k implies tag[i] == #[trigger] line[i] by {
        assert(bytes[i] == encode_utf8(tag)[i]);
        lemma_ascii_chars_equal(tag[i], line[i]);
    }
    assert(tag =~= line.subrange(0, k as int));
}

/// The rest of `line` after `tag`, if `line` starts with it: what
/// `str::strip_prefix` gives for an ASCII prefix.
pub(crate) fn strip_tag<'a>(line: &'a str, tag: &str) -> (r: Option<&'a str>)
    requires
        is_ascii_chars(tag@),
    ensures
        r.is_some() == tag@.is_prefix_of(line@),
        r matches Some(rest) ==> rest@ == line@.skip(tag@.len() as int),
{
    let lb = line.as_bytes();
    let tb = tag.as_bytes();
    let k: usize = tb.len();
    proof {
        lemma_ascii_tag(tag@);
        if tag@.is_prefix_of(line@) {
            lemma_prefix_gives_bytes(line@, tag@);
        }
    }
    if lb.len() < k {
        return None;
    }
    let mut i: usize = 0;
    while i < k
        invariant
            i <= k,
            k == tb@.len(),
            k <= lb@.len(),
            forall|j: int| 0 <= j < i ==> #[trigger] lb@[j] == tb@[j],
            tag@.is_prefix_of(line@) ==> forall|j: int| 0 <= j < k ==> #[trigger] lb@[j] == tb@[j],
        decreases k - i,
    {
        if lb[i] != tb[i] {
            return None;
        }
        i += 1;
    }
    proof {
        lemma_bytes_give_prefix(line@, tag@);
    }
    let (_, rest) = line.split_at(k);
    proof {
        let tail = line@.skip(k as int);
        assert(rest.spec_bytes() =~= encode_utf8(line@).skip(k as int));
        encode_utf8_decode_utf8(rest@);
        encode_utf8_decode_utf8(tail);
    }
    Some(rest)
}

proof fn lemma_wide_scalar_bytes(s: u32)
    requires
        s > 0x7f,
    ensures
        forall|i: int| 0 <= i < encode_scalar(s).len() ==> #[trigger] encode_scalar(s)[i] >= 0x80,
{
    assert(leading_byte_width_2(s) >= 0x80) by (bit_vector);
    assert(leading_byte_width_3(s) >= 0x80) by (bit_vector);
    assert(leading_byte_width_4(s) >= 0x80) by (bit_vector);
    assert(last_continuation_byte(s) >= 0x80) by (bit_vector);
    assert(second_last_continuation_byte(s) >= 0x80) by (bit_vector);
    assert(third_last_continuation_byte(s) >= 0x80) by (bit_vector);
}

/// The bytes of one character: the character itself where it is ASCII,
/// else one to four bytes that are all `0x80` or above.
pub proof fn lemma_char_bytes(c: char)
    ensures
        encode_scalar(c as u32).len() >= 1,
        c as u32 <= 0x7f ==> encode_scalar(c as u32) == seq![c as u8] && (c as u8) as u32
            == c as u32,
        c as u32 > 0x7f ==> forall|i: int|
            0 <= i < encode_scalar(c as u32).len() ==> #[trigger] encode_scalar(c as u32)[i]
                >= 0x80,
{
    if c as u32 <= 0x7f {
        lemma_encode_ascii_scalar(c as u32);
        lemma_ascii_char_byte(c);
    } else {
        lemma_wide_scalar_bytes(c as u32);
    }
}

/// The encoding of two texts joined is their encodings joined.
pub proof fn lemma_encode_concat(a: Seq<char>, b: Seq<char>)
    ensures
        encode_utf8(a + b) == encode_utf8(a) + encode_utf8(b),
    decreases a.len(),
{
    if a.len() == 0 {
        assert(a + b =~= b);
        assert(encode_utf8(a) + encode_utf8(b) =~= encode_utf8(b));
    } else {
        lemma_encode_concat(a.drop_first(), b);
        assert((a + b).drop_first() =~= a.drop_first() + b);
        assert(encode_utf8(a + b) =~= encode_utf8(a) + encode_utf8(b));
    }
}

/// A byte below `0x80` in the encoding of a text is one of its characters.
pub proof fn lemma_low_byte_is_char(chars: Seq<char>, j: int)
    requires
        0 <= j < encode_utf8(chars).len(),
        encode_utf8(chars)[j] < 0x80,
    ensures
        exists|i: int| 0 <= i < chars.len() && (#[trigger] chars[i]) as u32 == encode_utf8(chars)[j],
    decreases chars.len(),
{
    if chars.len() > 0 {
        let head = encode_scalar(chars[0] as u32);
        let rest = chars.drop_first();
        lemma_char_bytes(chars[0]);
        if j < head.len() {
            assert(encode_utf8(chars)[j] == head[j]);
            assert(chars[0] as u32 == encode_utf8(chars)[j]);
        } else {
            assert(encode_utf8(chars)[j] == encode_utf8(rest)[j - head.len()]);
            lemma_low_byte_is_char(rest, j - head.len());
            let i = choose|i: int|
                0 <= i < rest.len() && (#[trigger] rest[i]) as u32 == encode_utf8(rest)[j
                    - head.len()];
            assert(chars[i + 1] == rest[i]);
        }
    }
}

/// Where the encoding of a text ends in a byte below `0x80`, that byte is
/// the last character of the text.
pub proof fn lemma_low_last_byte_is_last_char(chars: Seq<char>)
    requires
        encode_utf8(chars).len() > 0,
        encode_utf8(chars).last() < 0x80,
    ensures
        chars.len() > 0,
        chars.last() as u32 == encode_utf8(chars).last(),
{
    assert(chars.len() > 0);
    let init = chars.drop_last();
    let one = seq![chars.last()];
    let tail = encode_scalar(chars.last() as u32);
    assert(chars =~= init + one);
    lemma_encode_concat(init, one);
    assert(one.drop_first() =~= Seq::<char>::empty());
    assert(encode_utf8(one.drop_first()) =~= Seq::<u8>::empty());
    assert(encode_utf8(one) =~= tail);
    lemma_char_bytes(chars.last());
    assert(encode_utf8(chars).last() == tail.last());
}

/// `String::from_utf8` of std: the bytes are accepted exactly when they are
/// well-formed UTF-8, and the string then holds the characters that they
/// encode. Believed of std, not proved.
#[verifier::external_body]
pub(crate) fn utf8_text(bytes: Vec<u8>) -> (text: Option<String>)
    ensures
        text.is_some() == valid_utf8(bytes@),
        text matches Some(s) ==> s@ == decode_utf8(bytes@),
{
    String::from_utf8(bytes).ok()
}

} // verus!
