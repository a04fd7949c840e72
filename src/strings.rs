use vstd::prelude::*;

verus! {

/// Relies on `String::push`: the character is appended at the end.
pub assume_specification[ String::push ](s: &mut String, ch: char)
    ensures
        final(s)@ == old(s)@.push(ch),
;

/// The characters that stand for the bytes one for one.
pub open spec fn text_of(bytes: Seq<u8>) -> Seq<char> {
    bytes.map_values(|b: u8| b as char)
}

/// The bytes that the characters stand for one for one.
pub open spec fn bytes_of(text: Seq<char>) -> Seq<u8> {
    text.map_values(|c: char| c as u8)
}

/// Every character of a field stands for one nonzero byte.
pub open spec fn is_field_text(text: Seq<char>) -> bool {
    forall|i: int| 0 <= i < text.len() ==> 0 < (#[trigger] text[i] as u32) && (text[i] as u32) < 256
}

/// A byte read as a character and back is the same byte.
pub proof fn lemma_char_byte(b: u8)
    ensures
        (b as char) as u32 == b as u32,
        ((b as char) as u8) == b,
{
}

/// A character below 256 stands for one byte and comes back from it.
pub proof fn lemma_byte_char(c: char)
    requires
        (c as u32) < 256,
    ensures
        ((c as u8) as char) == c,
        (c as u32) != 0 ==> (c as u8) != 0,
{
}

/// A field's text comes back from the bytes it stands for.
pub proof fn lemma_text_of_bytes_of(text: Seq<char>)
    requires
        is_field_text(text),
    ensures
        text_of(bytes_of(text)) == text,
        forall|i: int| 0 <= i < text.len() ==> #[trigger] bytes_of(text)[i] != 0,
{
    assert forall|i: int| 0 <= i < text.len() implies #[trigger] text_of(bytes_of(text))[i] == text[i]
        && bytes_of(text)[i] != 0 by {
        let c = text[i];
        lemma_byte_char(c);
    }
    assert(text_of(bytes_of(text)) =~= text);
}

/// Appends the bytes that a field's text stands for.
pub(crate) fn push_field(out: &mut Vec<u8>, text: &String)
    requires
        is_field_text(text@),
    ensures
        final(out)@ == old(out)@ + bytes_of(text@),
{
    let s = text.as_str();
    let n = s.unicode_len();
    let mut i: usize = 0;
    while i < n
        invariant
            n == text@.len(),
            s@ == text@,
            i <= n,
            is_field_text(text@),
            out@ == old(out)@ + bytes_of(text@.subrange(0, i as int)),
        decreases n - i,
    {
        let c = s.get_char(i);
        assert(0 < (c as u32) < 256);
        let b = c as u8;
        out.push(b);
        assert(bytes_of(text@.subrange(0, i + 1)) =~= bytes_of(text@.subrange(0, i as int)).push(b));
        i = i + 1;
    }
    assert(text@.subrange(0, n as int) =~= text@);
}

pub proof fn lemma_text_of_add(a: Seq<u8>, b: Seq<u8>)
    ensures
        text_of(a + b) == text_of(a) + text_of(b),
{
    assert(text_of(a + b) =~= text_of(a) + text_of(b));
}

/// Appends a byte as the character that stands for it.
pub(crate) fn push_byte(out: &mut String, b: u8)
    ensures
        final(out)@ == old(out)@ + text_of(seq![b]),
{
    out.push(b as char);
    assert(old(out)@.push(b as char) =~= old(out)@ + text_of(seq![b]));
}

/// Appends the characters of `s` from position `from` on.
pub(crate) fn push_chars(out: &mut String, s: &String, from: usize)
    requires
        from <= s@.len(),
    ensures
        final(out)@ == old(out)@ + s@.subrange(from as int, s@.len() as int),
{
    let t = s.as_str();
    let n = t.unicode_len();
    let mut i: usize = from;
    while i < n
        invariant
            t@ == s@,
            n == s@.len(),
            from <= i <= n,
            out@ == old(out)@ + s@.subrange(from as int, i as int),
        decreases n - i,
    {
        let c = t.get_char(i);
        out.push(c);
        assert(out@ =~= old(out)@ + s@.subrange(from as int, i + 1));
        i = i + 1;
    }
}

} // verus!
