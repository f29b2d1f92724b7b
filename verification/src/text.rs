//! Byte-exact helpers for UTF-8 text.
//!
//! The tools account for output in bytes but must never cut a string in
//! the middle of a character.  These helpers relate the byte view and the
//! character view of a string and cut strings at character boundaries.

use vstd::prelude::*;
use vstd::string::StringSliceAdditionalSpecFns;
use vstd::string::StrSliceExecFns;

verus! {

/// UTF-8 encoding distributes over concatenation.
pub proof fn lemma_encode_utf8_concat(a: Seq<char>, b: Seq<char>)
    ensures
        vstd::utf8::encode_utf8(a + b) == vstd::utf8::encode_utf8(a) + vstd::utf8::encode_utf8(b),
    decreases a.len(),
{
    if a.len() == 0 {
        assert(a + b =~= b);
        assert(vstd::utf8::encode_utf8(a) + vstd::utf8::encode_utf8(b)
            =~= vstd::utf8::encode_utf8(b));
    } else {
        assert((a + b).drop_first() =~= a.drop_first() + b);
        assert((a + b)[0] == a[0]);
        lemma_encode_utf8_concat(a.drop_first(), b);
        assert(vstd::utf8::encode_utf8(a) + vstd::utf8::encode_utf8(b)
            =~= vstd::utf8::encode_scalar(a[0] as u32)
                + (vstd::utf8::encode_utf8(a.drop_first()) + vstd::utf8::encode_utf8(b)));
    }
}

/// A character encodes to at most four bytes.
pub proof fn lemma_encode_utf8_len_bound(s: Seq<char>)
    ensures
        vstd::utf8::encode_utf8(s).len() <= 4 * s.len(),
    decreases s.len(),
{
    if s.len() > 0 {
        lemma_encode_utf8_len_bound(s.drop_first());
        assert(vstd::utf8::encode_scalar(s[0] as u32).len() <= 4);
    }
}

/// Two character sequences with the same UTF-8 encoding are the same.
pub proof fn lemma_encode_utf8_injective(a: Seq<char>, b: Seq<char>)
    requires
        vstd::utf8::encode_utf8(a) == vstd::utf8::encode_utf8(b),
    ensures
        a == b,
{
    broadcast use vstd::utf8::encode_utf8_decode_utf8;

    assert(vstd::utf8::decode_utf8(vstd::utf8::encode_utf8(a)) == a);
    assert(vstd::utf8::decode_utf8(vstd::utf8::encode_utf8(b)) == b);
}

/// Whether two strings hold the same characters.
pub fn str_eq(a: &str, b: &str) -> (r: bool)
    ensures
        r == (a@ == b@),
{
    let ab = a.as_bytes();
    let bb = b.as_bytes();
    if ab.len() != bb.len() {
        proof {
            if a@ == b@ {
                assert(a.spec_bytes() == b.spec_bytes());
            }
        }
        return false;
    }
    let mut i: usize = 0;
    while i < ab.len()
        invariant
            ab@ == a.spec_bytes(),
            bb@ == b.spec_bytes(),
            ab@.len() == bb@.len(),
            i <= ab@.len(),
            forall|k: int| 0 <= k < i ==> ab@[k] == bb@[k],
        decreases ab.len() - i,
    {
        if ab[i] != bb[i] {
            proof {
                if a@ == b@ {
                    assert(a.spec_bytes() == b.spec_bytes());
                }
            }
            return false;
        }
        i = i + 1;
    }
    proof {
        assert(a.spec_bytes() =~= b.spec_bytes());
        lemma_encode_utf8_injective(a@, b@);
    }
    true
}

/// The length `keep` is where a byte allowance of `cap` cuts `bytes`: it
/// fits the allowance and the byte sequence, ends at a character boundary,
/// and no longer prefix under the allowance does.
pub open spec fn is_boundary_cut(bytes: Seq<u8>, cap: int, keep: int) -> bool {
    &&& 0 <= keep <= cap
    &&& keep <= bytes.len()
    &&& vstd::utf8::is_char_boundary(bytes, keep)
    &&& forall|k: int| keep < k <= cap && k <= bytes.len()
        ==> !vstd::utf8::is_char_boundary(bytes, k)
}

/// The longest prefix of `text` that holds at most `max_bytes` bytes and
/// ends at a character boundary.
pub fn take_bytes_at_char_boundary<'a>(text: &'a str, max_bytes: usize) -> (r: &'a str)
    ensures
        r.spec_bytes().len() <= max_bytes,
        r.spec_bytes() == text.spec_bytes().subrange(0, r.spec_bytes().len() as int),
        is_boundary_cut(text.spec_bytes(), max_bytes as int, r.spec_bytes().len() as int),
        text.spec_bytes().len() <= max_bytes ==> r@ == text@,
    {
    proof {
        broadcast use vstd::utf8::encode_utf8_valid_utf8;
        broadcast use vstd::utf8::is_char_boundary_start_end_of_seq;

    }
    if text.as_bytes().len() <= max_bytes {
        proof {
            assert(text.spec_bytes().subrange(0, text.spec_bytes().len() as int)
                =~= text.spec_bytes());
        }
        return text;
    }
    let mut keep: usize = max_bytes;
    while keep > 0 && !text.is_char_boundary(keep)
        invariant
            keep <= max_bytes,
            max_bytes < text.spec_bytes().len(),
            forall|k: int| keep < k <= max_bytes
                ==> !vstd::utf8::is_char_boundary(text.spec_bytes(), k),
        decreases keep,
    {
        keep = keep - 1;
    }
    proof {
        if keep == 0 {
            broadcast use vstd::utf8::encode_utf8_valid_utf8;
            broadcast use vstd::utf8::is_char_boundary_start_end_of_seq;

            assert(vstd::utf8::is_char_boundary(text.spec_bytes(), 0));
        }
    }
    let (head, _) = text.split_at(keep);
    proof {
        assert(head.spec_bytes() =~= text.spec_bytes().subrange(0, keep as int));
    }
    head
}

/// Cuts `text` down to at most `max_bytes` bytes at a character boundary,
/// keeping the longest prefix that fits; a zero allowance clears it, and a
/// text that already fits stays whole.
pub fn truncate_string_to_bytes(text: &mut String, max_bytes: usize)
    ensures
        final(text)@.len() > 0 ==> max_bytes > 0,
        vstd::utf8::encode_utf8(final(text)@).len() <= max_bytes,
        vstd::utf8::encode_utf8(final(text)@) == vstd::utf8::encode_utf8(old(text)@)
            .subrange(0, vstd::utf8::encode_utf8(final(text)@).len() as int),
        max_bytes > 0 ==> is_boundary_cut(
            vstd::utf8::encode_utf8(old(text)@),
            max_bytes as int,
            vstd::utf8::encode_utf8(final(text)@).len() as int,
        ),
        vstd::utf8::encode_utf8(old(text)@).len() <= max_bytes && max_bytes > 0
            ==> final(text)@ == old(text)@,
{
    proof {
        broadcast use vstd::utf8::encode_utf8_valid_utf8;
        broadcast use vstd::utf8::is_char_boundary_start_end_of_seq;

    }
    if max_bytes == 0 {
        *text = String::new();
        proof {
            assert(vstd::utf8::encode_utf8(text@) =~= vstd::utf8::encode_utf8(old(text)@)
                .subrange(0, 0));
        }
        return;
    }
    if text.as_str().as_bytes().len() <= max_bytes {
        proof {
            assert(vstd::utf8::encode_utf8(text@)
                =~= vstd::utf8::encode_utf8(text@)
                    .subrange(0, vstd::utf8::encode_utf8(text@).len() as int));
        }
        return;
    }
    let keep = take_bytes_at_char_boundary(text.as_str(), max_bytes).to_owned();
    *text = keep;
}

/// Up to `max_bytes` bytes of the template, cut at a character boundary,
/// keeping the longest prefix that fits; empty when nothing is allowed.
pub fn truncated_notice(template: &str, max_bytes: usize) -> (r: String)
    ensures
        vstd::utf8::encode_utf8(r@).len() <= max_bytes,
        max_bytes == 0 || template@.len() == 0 ==> r@.len() == 0,
        template.spec_bytes().len() <= max_bytes && max_bytes > 0 ==> r@ == template@,
        vstd::utf8::encode_utf8(r@) == template.spec_bytes()
            .subrange(0, vstd::utf8::encode_utf8(r@).len() as int),
        max_bytes > 0 ==> is_boundary_cut(
            template.spec_bytes(),
            max_bytes as int,
            vstd::utf8::encode_utf8(r@).len() as int,
        ),
{
    proof {
        broadcast use vstd::utf8::encode_utf8_valid_utf8;
        broadcast use vstd::utf8::is_char_boundary_start_end_of_seq;

    }
    if max_bytes == 0 || template.is_empty() {
        let r = String::new();
        proof {
            assert(vstd::utf8::encode_utf8(r@) =~= Seq::<u8>::empty());
            assert(vstd::utf8::encode_utf8(r@) =~= template.spec_bytes().subrange(0, 0));
        }
        return r;
    }
    take_bytes_at_char_boundary(template, max_bytes).to_owned()
}

/// The name of what `String::from_utf8_lossy` returns for given bytes:
/// a function of the bytes alone.
pub uninterp spec fn utf8_lossy_of(bytes: Seq<u8>) -> Seq<char>;

/// Relies on `String::from_utf8_lossy`: the result depends on the bytes
/// alone, and valid UTF-8 comes back unchanged.
#[verifier::external_body]
pub(crate) fn bytes_to_utf8_lossy(bytes: &Vec<u8>) -> (r: String)
    ensures
        r@ == utf8_lossy_of(bytes@),
        vstd::utf8::valid_utf8(bytes@) ==> r@ == vstd::utf8::decode_utf8(bytes@),
{
    String::from_utf8_lossy(bytes).to_string()
}

} // verus!
