//! Pure presentation helpers: building a lookup URL for a headword, and
//! the display text of a sense group.

use vstd::prelude::*;

verus! {

use vstd::string::StringExecFns;
use vstd::string::StringSliceAdditionalSpecFns;
use vstd::utf8::encode_utf8;
use vstd::utf8::decode_utf8;
use vstd::utf8::valid_utf8;
use vstd::utf8::is_leading_byte_width_1;
use vstd::utf8::partial_valid_utf8;
use crate::entry::Gloss;
use crate::entry::GlossModel;
use crate::entry::Sense;
use crate::text::decode_range;

/// True of the bytes that the URL fragment encoding escapes: the control
/// bytes, space, double quote, the angle brackets, backtick, and every
/// non-ASCII byte.
pub open spec fn fragment_escaped(b: u8) -> bool {
    b < 0x21 || b == 0x22 || b == 0x3c || b == 0x3e || b == 0x60 || b >= 0x7f
}

/// The upper-case hexadecimal digit of a value below sixteen.
pub open spec fn hex_upper(n: u8) -> u8 {
    if n < 10 {
        (0x30 + n) as u8
    } else {
        (0x41 + n - 10) as u8
    }
}

/// The percent-encoding of a byte sequence under the fragment set: an
/// escaped byte becomes `%` and two upper-case hex digits; every other
/// byte stands as itself.
pub open spec fn fragment_encode_bytes(bytes: Seq<u8>) -> Seq<u8>
    decreases bytes.len(),
{
    if bytes.len() == 0 {
        Seq::empty()
    } else {
        let b = bytes[0];
        (if fragment_escaped(b) {
            seq![0x25u8, hex_upper(b / 16), hex_upper(b % 16)]
        } else {
            seq![b]
        }) + fragment_encode_bytes(bytes.drop_first())
    }
}

/// All-ASCII byte sequences are valid UTF-8, and decode to themselves.
proof fn lemma_ascii_valid(bytes: Seq<u8>)
    requires
        forall|j: int| 0 <= j < bytes.len() ==> (#[trigger] bytes[j]) < 0x80,
    ensures
        valid_utf8(bytes),
{
    broadcast use vstd::utf8::utf8_byte_ranges_bitwise;

    assert(bytes.subrange(0, 0) =~= Seq::<u8>::empty());
    assert(partial_valid_utf8(bytes, 0));
    assert forall|j: int| 0 <= j < bytes.len() implies #[trigger] is_leading_byte_width_1(
        bytes[j],
    ) by {
        assert(bytes[j] < 0x80);
    }
    vstd::utf8::partial_valid_utf8_extend_ascii_block(bytes, 0, bytes.len() as int);
    assert(bytes.subrange(0, bytes.len() as int) =~= bytes);
}

/// Builds the lookup URL for one word: the base URL followed by the
/// word's UTF-8 bytes in fragment percent-encoding.
pub fn make_word_url(base_url: &str, word: &str) -> (r: String)
    ensures
        r@.len() >= base_url@.len(),
        r@.subrange(0, base_url@.len() as int) == base_url@,
        encode_utf8(r@.subrange(base_url@.len() as int, r@.len() as int)) == fragment_encode_bytes(
            word.spec_bytes(),
        ),
{
    let wb = word.as_bytes();
    let n = wb.len();
    let mut out: Vec<u8> = Vec::new();
    let mut i: usize = 0;
    proof {
        assert(wb@.subrange(0, n as int) =~= wb@);
        assert(Seq::<u8>::empty() + fragment_encode_bytes(wb@) =~= fragment_encode_bytes(wb@));
    }
    while i < n
        invariant
            i <= n,
            n == wb@.len(),
            out@ + fragment_encode_bytes(wb@.subrange(i as int, n as int)) == fragment_encode_bytes(
                wb@,
            ),
            forall|j: int| 0 <= j < out@.len() ==> (#[trigger] out@[j]) < 0x80,
        decreases n - i,
    {
        let ghost rest = wb@.subrange(i as int, n as int);
        let ghost rest2 = wb@.subrange(i as int + 1, n as int);
        proof {
            assert(rest[0] == wb@[i as int]);
            assert(rest.drop_first() =~= rest2);
        }
        let ghost pre = out@;
        let b = wb[i];
        if b < 0x21 || b == 0x22 || b == 0x3c || b == 0x3e || b == 0x60 || b >= 0x7f {
            out.push(0x25);
            let hi = b / 16;
            let lo = b % 16;
            out.push(
                if hi < 10 {
                    0x30 + hi
                } else {
                    0x41 + hi - 10
                },
            );
            out.push(
                if lo < 10 {
                    0x30 + lo
                } else {
                    0x41 + lo - 10
                },
            );
            proof {
                assert(out@ =~= pre + seq![0x25u8, hex_upper(b / 16), hex_upper(b % 16)]);
                assert(out@ + fragment_encode_bytes(rest2) =~= pre + fragment_encode_bytes(rest));
            }
        } else {
            out.push(b);
            proof {
                assert(out@ =~= pre + seq![b]);
                assert(out@ + fragment_encode_bytes(rest2) =~= pre + fragment_encode_bytes(rest));
            }
        }
        i += 1;
    }
    proof {
        assert(wb@.subrange(n as int, n as int) =~= Seq::<u8>::empty());
        assert(out@ + Seq::<u8>::empty() =~= out@);
        assert(out@ == fragment_encode_bytes(wb@));
        lemma_ascii_valid(out@);
    }
    let tail = match decode_range(out.as_slice(), 0, out.len()) {
        Ok(s) => s,
        Err(_) => {
            proof {
                assert(out@.subrange(0, out@.len() as int) =~= out@);
            }
            String::new()
        },
    };
    proof {
        assert(out@.subrange(0, out@.len() as int) =~= out@);
        assert(tail@ == decode_utf8(out@));
        vstd::utf8::decode_utf8_encode_utf8(out@);
    }
    let base = base_url.to_owned();
    let r = base.concat(tail.as_str());
    proof {
        assert(r@.subrange(0, base_url@.len() as int) =~= base_url@);
        assert(r@.subrange(base_url@.len() as int, r@.len() as int) =~= tail@);
    }
    r
}

/// True when a sense group has primary-language content: at least one of
/// its glosses carries no language tag.
pub open spec fn has_primary_gloss(gs: Seq<GlossModel>) -> bool {
    exists|i: int| 0 <= i < gs.len() && (#[trigger] gs[i]).lang is None
}

/// The display text of a sense group: the texts of its glosses, in order,
/// joined by a semicolon and a space.
pub open spec fn joined_gloss_text(gs: Seq<GlossModel>) -> Seq<char>
    decreases gs.len(),
{
    if gs.len() == 0 {
        Seq::empty()
    } else if gs.len() == 1 {
        gs[0].text
    } else {
        joined_gloss_text(gs.drop_last()) + "; "@ + gs.last().text
    }
}

/// The display text of one sense: its glosses joined by `"; "`, when the
/// sense has primary-language content; `None` otherwise, so that callers
/// can leave out senses with no gloss in the primary language.
pub fn sense_display_text(sense: &Sense) -> (r: Option<String>)
    ensures
        match r {
            Some(s) => has_primary_gloss(sense@) && s@ == joined_gloss_text(sense@),
            None => !has_primary_gloss(sense@),
        },
{
    let glosses = sense.glosses();
    let ghost gv = sense@;
    let n = glosses.len();
    let mut text = String::new();
    let mut has_english: bool = false;
    let mut i: usize = 0;
    proof {
        assert(gv.subrange(0, 0) =~= Seq::<GlossModel>::empty());
    }
    while i < n
        invariant
            i <= n,
            n == glosses@.len(),
            gv == glosses@.map_values(|g: Gloss| g@),
            text@ == joined_gloss_text(gv.subrange(0, i as int)),
            has_english == has_primary_gloss(gv.subrange(0, i as int)),
        decreases n - i,
    {
        let ghost pre = gv.subrange(0, i as int);
        let ghost cur = gv.subrange(0, i as int + 1);
        proof {
            assert(glosses@[i as int]@ == gv[i as int]);
            assert(cur.drop_last() =~= pre);
            assert(cur.last() == gv[i as int]);
        }
        let g = &glosses[i];
        if i > 0 {
            text.append("; ");
        }
        text.append(g.text());
        if g.lang().is_none() {
            has_english = true;
        }
        proof {
            if pre.len() == 0 {
                assert(text@ =~= cur[0].text);
            }
            if has_primary_gloss(pre) {
                let w = choose|k: int| 0 <= k < pre.len() && (#[trigger] pre[k]).lang is None;
                assert(cur[w].lang is None);
            }
            if gv[i as int].lang is None {
                assert(cur[i as int].lang is None);
            }
            if has_primary_gloss(cur) && !has_primary_gloss(pre) && !(gv[i as int].lang is None) {
                let w = choose|k: int| 0 <= k < cur.len() && (#[trigger] cur[k]).lang is None;
                assert(0 <= w < pre.len() && pre[w].lang is None);
            }
        }
        i += 1;
    }
    proof {
        assert(gv.subrange(0, n as int) =~= gv);
    }
    if has_english {
        Some(text)
    } else {
        None
    }
}

} // verus!
