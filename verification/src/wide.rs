//! UTF-16 text, as the window system takes and gives it.

use vstd::prelude::*;

verus! {

/// The UTF-16 code units of one character.
pub open spec fn char_units(c: char) -> Seq<u16> {
    let v: u32 = c as u32;
    if v < 0x10000 {
        seq![v as u16]
    } else {
        seq![(0xD800 + (v - 0x10000) / 0x400) as u16, (0xDC00 + (v - 0x10000) % 0x400) as u16]
    }
}

/// The UTF-16 code units of a text.
pub open spec fn utf16_units(text: Seq<char>) -> Seq<u16>
    decreases text.len(),
{
    if text.len() == 0 {
        Seq::empty()
    } else {
        utf16_units(text.drop_last()) + char_units(text.last())
    }
}

/// The UTF-16 code units of a text followed by a terminating zero unit.
pub open spec fn wide_nul(text: Seq<char>) -> Seq<u16> {
    utf16_units(text).push(0)
}

fn push_char_units(out: &mut Vec<u16>, c: char)
    ensures
        final(out)@ == old(out)@ + char_units(c),
{
    let v: u32 = c as u32;
    if v < 0x10000 {
        out.push(v as u16);
    } else {
        let w: u32 = v - 0x10000;
        out.push((0xD800 + w / 0x400) as u16);
        out.push((0xDC00 + w % 0x400) as u16);
    }
}

/// The UTF-16 code units of `text`.
pub fn encode_wide(text: &str) -> (r: Vec<u16>)
    ensures
        r@ == utf16_units(text@),
{
    let mut out: Vec<u16> = Vec::new();
    for c in it: text.chars()
        invariant
            it.seq() == text@,
            out@ == utf16_units(text@.take(it.index())),
    {
        assert(text@.take(it.index() + 1).drop_last() =~= text@.take(it.index()));
        push_char_units(&mut out, c);
    }
    assert(text@.take(text@.len() as int) =~= text@);
    out
}

/// The UTF-16 code units of `text` followed by a terminating zero unit.
pub fn encode_wide_nul(text: &str) -> (r: Vec<u16>)
    ensures
        r@ == wide_nul(text@),
{
    let mut out: Vec<u16> = encode_wide(text);
    out.push(0);
    out
}

/// The encoding of two texts one after the other is the encoding of the
/// first followed by that of the second.
pub proof fn law_utf16_of_concat(first: Seq<char>, second: Seq<char>)
    ensures
        utf16_units(first + second) == utf16_units(first) + utf16_units(second),
    decreases second.len(),
{
    if second.len() == 0 {
        assert(first + second =~= first);
        assert(utf16_units(first) + utf16_units(second) =~= utf16_units(first));
    } else {
        law_utf16_of_concat(first, second.drop_last());
        assert((first + second).drop_last() =~= first + second.drop_last());
        assert(utf16_units(first) + utf16_units(second) =~= utf16_units(first) + utf16_units(
            second.drop_last(),
        ) + char_units(second.last()));
    }
}

/// A text whose characters all lie in the Basic Multilingual Plane is
/// encoded one unit per character, each unit the character's code point.
pub proof fn law_bmp_text_is_its_code_points(text: Seq<char>)
    requires
        forall|i: int| 0 <= i < text.len() ==> (#[trigger] text[i] as u32) < 0x10000,
    ensures
        utf16_units(text).len() == text.len(),
        forall|i: int| 0 <= i < text.len() ==> #[trigger] utf16_units(text)[i] == text[i] as u32,
    decreases text.len(),
{
    if text.len() > 0 {
        let init: Seq<char> = text.drop_last();
        assert forall|i: int| 0 <= i < init.len() implies (#[trigger] init[i] as u32) < 0x10000 by {
            assert(init[i] == text[i]);
        }
        law_bmp_text_is_its_code_points(init);
        assert((text[text.len() - 1] as u32) < 0x10000);
        assert forall|i: int| 0 <= i < text.len() implies #[trigger] utf16_units(text)[i]
            == text[i] as u32 by {
            if i < text.len() - 1 {
                assert(utf16_units(text)[i] == utf16_units(init)[i]);
                assert(init[i] == text[i]);
            }
        }
    }
}

/// A text without the NUL character encodes to non-zero units only, so in
/// its terminated encoding the terminator is the one zero unit.
pub proof fn law_terminator_is_the_only_zero(text: Seq<char>)
    requires
        forall|i: int| 0 <= i < text.len() ==> (#[trigger] text[i] as u32) != 0,
    ensures
        wide_nul(text).len() == utf16_units(text).len() + 1,
        wide_nul(text).last() == 0,
        forall|i: int| 0 <= i < utf16_units(text).len() ==> #[trigger] wide_nul(text)[i] != 0,
    decreases text.len(),
{
    if text.len() > 0 {
        let init: Seq<char> = text.drop_last();
        assert forall|i: int| 0 <= i < init.len() implies (#[trigger] init[i] as u32) != 0 by {
            assert(init[i] == text[i]);
        }
        law_terminator_is_the_only_zero(init);
        let c: char = text.last();
        let v: u32 = c as u32;
        vstd::utf8::char_is_scalar(c);
        assert(v != 0);
        assert(v <= 0x10FFFF);
        if v < 0x10000 {
            assert(char_units(c)[0] == v);
        } else {
            assert(0 <= (v - 0x10000) / 0x400 < 0x400);
            assert(char_units(c)[0] == 0xD800 + (v - 0x10000) / 0x400);
            assert(char_units(c)[1] == 0xDC00 + (v - 0x10000) % 0x400);
        }
        assert(forall|k: int| 0 <= k < char_units(c).len() ==> #[trigger] char_units(c)[k] != 0);
        assert forall|i: int| 0 <= i < utf16_units(text).len() implies #[trigger] wide_nul(text)[i]
            != 0 by {
            if i < utf16_units(init).len() {
                assert(wide_nul(text)[i] == wide_nul(init)[i]);
            } else {
                assert(wide_nul(text)[i] == char_units(c)[i - utf16_units(init).len()]);
            }
        }
    }
}

/// A character beyond the Basic Multilingual Plane becomes a high surrogate
/// followed by a low surrogate, from which it is recovered.
pub proof fn law_surrogate_pair_decodes(c: char)
    requires
        (c as u32) >= 0x10000,
    ensures
        char_units(c).len() == 2,
        0xD800 <= char_units(c)[0] <= 0xDBFF,
        0xDC00 <= char_units(c)[1] <= 0xDFFF,
        ((char_units(c)[0] - 0xD800) * 0x400 + (char_units(c)[1] - 0xDC00)) + 0x10000 == c as u32,
{
    vstd::utf8::char_is_scalar(c);
    let v: int = c as u32 as int;
    assert(0 <= (v - 0x10000) / 0x400 < 0x400);
    assert(char_units(c)[0] == 0xD800 + (v - 0x10000) / 0x400);
    assert(char_units(c)[1] == 0xDC00 + (v - 0x10000) % 0x400);
}

/// `needle` stands in `haystack` starting at unit `start`.
pub open spec fn occurs_at(haystack: Seq<u16>, needle: Seq<u16>, start: int) -> bool {
    &&& 0 <= start
    &&& start + needle.len() <= haystack.len()
    &&& haystack.subrange(start, start + needle.len()) == needle
}

/// `needle` stands somewhere in `haystack` as a run of consecutive units.
pub open spec fn contains_units(haystack: Seq<u16>, needle: Seq<u16>) -> bool {
    exists|start: int| occurs_at(haystack, needle, start)
}

/// How the search relates across inputs: the empty run is found in any
/// buffer, a buffer contains itself, a run longer than the buffer is never
/// found, and a run found in a buffer is still found when units are added
/// before and after it.
pub proof fn law_search(haystack: Seq<u16>, needle: Seq<u16>, before: Seq<u16>, after: Seq<u16>)
    ensures
        contains_units(haystack, Seq::empty()),
        contains_units(haystack, haystack),
        needle.len() > haystack.len() ==> !contains_units(haystack, needle),
        contains_units(haystack, needle) ==> contains_units(before + haystack + after, needle),
{
    assert(haystack.subrange(0, 0) =~= Seq::<u16>::empty());
    assert(occurs_at(haystack, Seq::empty(), 0));
    assert(haystack.subrange(0, haystack.len() as int) =~= haystack);
    assert(occurs_at(haystack, haystack, 0));
    if contains_units(haystack, needle) {
        let start: int = choose|start: int| occurs_at(haystack, needle, start);
        let whole: Seq<u16> = before + haystack + after;
        assert(whole.subrange(before.len() + start, before.len() + start + needle.len())
            =~= haystack.subrange(start, start + needle.len()));
        assert(occurs_at(whole, needle, before.len() + start));
    }
}

fn occurs_at_exec(haystack: &[u16], needle: &[u16], start: usize) -> (r: bool)
    requires
        start + needle@.len() <= haystack@.len(),
    ensures
        r == occurs_at(haystack@, needle@, start as int),
{
    let haystack_len: usize = haystack.len();
    let mut i: usize = 0;
    while i < needle.len()
        invariant
            i <= needle@.len(),
            haystack@.len() == haystack_len,
            start + needle@.len() <= haystack@.len(),
            forall|k: int| 0 <= k < i ==> haystack@[start + k] == needle@[k],
        decreases needle@.len() - i,
    {
        if haystack[start + i] != needle[i] {
            assert(haystack@.subrange(start as int, start + needle@.len())[i as int] != needle@[i as int]);
            return false;
        }
        i = i + 1;
    }
    assert(haystack@.subrange(start as int, start + needle@.len()) =~= needle@);
    true
}

/// Whether `needle` stands in `haystack` as a run of consecutive units.
pub fn find_units(haystack: &[u16], needle: &[u16]) -> (r: bool)
    ensures
        r == contains_units(haystack@, needle@),
{
    if needle.len() > haystack.len() {
        assert forall|start: int| !occurs_at(haystack@, needle@, start) by {}
        return false;
    }
    let last: usize = haystack.len() - needle.len();
    let mut start: usize = 0;
    while start < last
        invariant
            last + needle@.len() == haystack@.len(),
            start <= last,
            forall|k: int| 0 <= k < start ==> !occurs_at(haystack@, needle@, k),
        decreases last - start,
    {
        if occurs_at_exec(haystack, needle, start) {
            return true;
        }
        start = start + 1;
    }
    if occurs_at_exec(haystack, needle, last) {
        return true;
    }
    assert forall|k: int| !occurs_at(haystack@, needle@, k) by {
        if 0 <= k < start {
        }
    }
    false
}

} // verus!
