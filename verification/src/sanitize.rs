//! Escape-byte sanitising of text that is shown to the user.

use vstd::prelude::*;

verus! {

/// The escape control byte.
pub const ESC: u8 = 0x1b;

/// The UTF-8 encoding of U+241B, the visible glyph that stands for an escape byte.
pub open spec fn escape_glyph() -> Seq<u8> {
    seq![0xe2u8, 0x90u8, 0x9bu8]
}

/// What one byte becomes: the glyph for an escape byte, the byte itself otherwise.
pub open spec fn sanitized_byte(b: u8) -> Seq<u8> {
    if b == ESC {
        escape_glyph()
    } else {
        seq![b]
    }
}

/// The bytes of `buf` with every escape byte replaced by the glyph.
pub open spec fn sanitized(buf: Seq<u8>) -> Seq<u8>
    decreases buf.len(),
{
    if buf.len() == 0 {
        Seq::empty()
    } else {
        sanitized(buf.drop_last()) + sanitized_byte(buf.last())
    }
}

/// Sanitising never makes text shorter.
pub proof fn lemma_sanitized_len(buf: Seq<u8>)
    ensures
        sanitized(buf).len() >= buf.len(),
    decreases buf.len(),
{
    if buf.len() > 0 {
        lemma_sanitized_len(buf.drop_last());
    }
}

/// Text without an escape byte is left as it is.
pub proof fn lemma_sanitized_clean(buf: Seq<u8>)
    requires
        !buf.contains(ESC),
    ensures
        sanitized(buf) == buf,
    decreases buf.len(),
{
    if buf.len() > 0 {
        assert forall|b: u8| buf.drop_last().contains(b) implies buf.contains(b) by {
            let i = choose|i: int| 0 <= i < buf.drop_last().len() && buf.drop_last()[i] == b;
            assert(buf[i] == b);
        }
        lemma_sanitized_clean(buf.drop_last());
        assert(buf.last() != ESC) by {
            assert(buf[buf.len() - 1] == buf.last());
        }
        assert(buf.drop_last() + seq![buf.last()] =~= buf);
    }
}

/// The sanitised text holds no escape byte.
pub proof fn lemma_sanitized_has_no_escape(buf: Seq<u8>)
    ensures
        !sanitized(buf).contains(ESC),
    decreases buf.len(),
{
    if buf.len() > 0 {
        lemma_sanitized_has_no_escape(buf.drop_last());
        let head = sanitized(buf.drop_last());
        let tail = sanitized_byte(buf.last());
        if sanitized(buf).contains(ESC) {
            let i = choose|i: int| 0 <= i < sanitized(buf).len() && sanitized(buf)[i] == ESC;
            if i < head.len() {
                assert(head[i] == ESC);
            } else {
                assert(tail[i - head.len()] == ESC);
            }
        }
    }
}

/// Appends `buf` to `output`, writing the glyph in place of each escape byte.
pub fn write_sanitized(output: &mut Vec<u8>, buf: &[u8])
    ensures
        final(output)@ == old(output)@ + sanitized(buf@),
{
    let mut i: usize = 0;
    while i < buf.len()
        invariant
            0 <= i <= buf@.len(),
            output@ == old(output)@ + sanitized(buf@.take(i as int)),
        decreases buf@.len() - i,
    {
        let b: u8 = buf[i];
        proof {
            assert(buf@.take(i + 1).drop_last() =~= buf@.take(i as int));
            assert(buf@.take(i + 1).last() == b);
        }
        if b == ESC {
            output.push(0xe2u8);
            output.push(0x90u8);
            output.push(0x9bu8);
        } else {
            output.push(b);
        }
        proof {
            assert(output@ =~= old(output)@ + sanitized(buf@.take(i + 1)));
        }
        i = i + 1;
    }
    proof {
        assert(buf@.take(i as int) =~= buf@);
    }
}

/// Appends `data` to `output` as it is.
pub fn write_all(output: &mut Vec<u8>, data: &[u8])
    ensures
        final(output)@ == old(output)@ + data@,
{
    let mut i: usize = 0;
    while i < data.len()
        invariant
            0 <= i <= data@.len(),
            output@ == old(output)@ + data@.take(i as int),
        decreases data@.len() - i,
    {
        output.push(data[i]);
        i = i + 1;
        proof {
            assert(output@ =~= old(output)@ + data@.take(i as int));
        }
    }
    proof {
        assert(data@.take(i as int) =~= data@);
    }
}

} // verus!
