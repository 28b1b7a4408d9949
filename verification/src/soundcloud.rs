//! The SoundCloud puzzle: the key is hidden in a text found in an image.
use vstd::prelude::*;
use vstd::string::StringSliceAdditionalSpecFns;
use crate::{from_cipher, puzzle_text, PuzzleError};
use crate::bytes::{base64_aes_text, decrypt_base64};
use crate::text::{chars_of, string_from_chars};

verus! {

/// What stands before the first `c` (all of `s` when there is none).
pub open spec fn before_first(s: Seq<char>, c: char) -> Seq<char>
    decreases s.len(),
{
    if s.len() == 0 {
        s
    } else if s[0] == c {
        seq![]
    } else {
        seq![s[0]] + before_first(s.drop_first(), c)
    }
}

/// What stands after the last `c` (all of `s` when there is none).
pub open spec fn after_last(s: Seq<char>, c: char) -> Seq<char>
    decreases s.len(),
{
    if s.len() == 0 {
        s
    } else if s.last() == c {
        seq![]
    } else {
        after_last(s.drop_last(), c).push(s.last())
    }
}

/// The characters that are not ASCII digits.
pub open spec fn non_digits(s: Seq<char>) -> Seq<char>
    decreases s.len(),
{
    if s.len() == 0 {
        s
    } else if '0' <= s.last() && s.last() <= '9' {
        non_digits(s.drop_last())
    } else {
        non_digits(s.drop_last()).push(s.last())
    }
}

/// The key: the text between the last `X` before the first `Y`, and that
/// `Y`, without its digits.
pub open spec fn soundcloud_key(image: Seq<char>) -> Seq<char> {
    non_digits(after_last(before_first(image, 'Y'), 'X'))
}

/// The key hidden in the image's text.
pub fn image_key(image: &str) -> (r: String)
    ensures
        r@ == soundcloud_key(image@),
{
    let cs = chars_of(image);
    // before the first 'Y'
    let mut end: usize = 0;
    assert(cs@.skip(0) == cs@);
    assert(cs@.take(0) + before_first(cs@, 'Y') == before_first(cs@, 'Y'));
    while end < cs.len() && cs[end] != 'Y'
        invariant
            end <= cs@.len(),
            before_first(cs@, 'Y') == cs@.take(end as int) + before_first(cs@.skip(end as int), 'Y'),
        decreases cs@.len() - end,
    {
        assert(cs@.skip(end as int).drop_first() == cs@.skip(end + 1));
        assert(cs@.take(end + 1) == cs@.take(end as int).push(cs@[end as int]));
        end = end + 1;
    }
    assert(before_first(cs@.skip(end as int), 'Y') == Seq::<char>::empty());
    let ghost part = cs@.take(end as int);
    assert(before_first(cs@, 'Y') == part);
    // after the last 'X'
    let mut start = end;
    assert(part.take(end as int) == part);
    assert(part.subrange(end as int, end as int) == Seq::<char>::empty());
    assert(after_last(part, 'X') + Seq::<char>::empty() == after_last(part, 'X'));
    while start > 0 && cs[start - 1] != 'X'
        invariant
            start <= end,
            end <= cs@.len(),
            part == cs@.take(end as int),
            after_last(part, 'X') == after_last(part.take(start as int), 'X') + part.subrange(
                start as int,
                end as int,
            ),
        decreases start,
    {
        assert(part.take(start as int).drop_last() == part.take(start - 1));
        assert(part.subrange(start - 1, end as int) == seq![part[start - 1]] + part.subrange(
            start as int,
            end as int,
        ));
        start = start - 1;
    }
    assert(after_last(part.take(start as int), 'X') == Seq::<char>::empty()) by {
        if start > 0 {
            assert(part.take(start as int).last() == 'X');
        }
    }
    // without digits
    let mut out: Vec<char> = Vec::new();
    let mut i = start;
    while i < end
        invariant
            start <= i <= end,
            end <= cs@.len(),
            out@ == non_digits(part.subrange(start as int, i as int)),
            part == cs@.take(end as int),
        decreases end - i,
    {
        let c = cs[i];
        assert(part.subrange(start as int, i + 1).drop_last() == part.subrange(start as int, i as int));
        if !('0' <= c && c <= '9') {
            out.push(c);
        }
        i = i + 1;
    }
    assert(after_last(part, 'X') == part.subrange(start as int, end as int));
    string_from_chars(out.as_slice())
}

/// The answer: the base64 text `encrypted` decrypted under the key hidden
/// in the image's text.
pub fn answer(image: &str, encrypted: &[u8]) -> (r: Result<String, PuzzleError>)
    ensures
        puzzle_text(r) == from_cipher(base64_aes_text(encrypted@, vstd::utf8::encode_utf8(soundcloud_key(image@)))),
{
    let key = image_key(image);
    match decrypt_base64(encrypted, key.as_str().as_bytes()) {
        Ok(s) => Ok(s),
        Err(e) => Err(PuzzleError::Cipher(e)),
    }
}

} // verus!
