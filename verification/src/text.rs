use vstd::prelude::*;

use vstd::utf8::{
    codepoint_width_1, codepoint_width_2, codepoint_width_3, codepoint_width_4,
    decode_first_codepoint, is_continuation_byte, is_leading_byte_width_1,
    is_leading_byte_width_2, is_leading_byte_width_3, is_leading_byte_width_4,
    length_of_first_codepoint, pop_first_scalar, valid_first_scalar,
    valid_leading_and_continuation_bytes_first_codepoint, valid_utf8,
};

verus! {

/// True exactly when `s` is valid UTF-8: a well-formed leading byte and
/// its continuation bytes for each scalar, no overlong encoding, no
/// surrogate.
pub fn is_utf8_text(s: &[u8]) -> (b: bool)
    ensures
        b == valid_utf8(s@),
{
    let len: usize = s.len();
    let mut i: usize = 0;
    proof {
        assert(s@.skip(0) =~= s@);
    }
    while i < len
        invariant
            i <= len,
            len == s@.len(),
            valid_utf8(s@) == valid_utf8(s@.skip(i as int)),
        decreases len - i,
    {
        let ghost tail = s@.skip(i as int);
        let b0 = s[i];
        proof {
            assert(tail.len() == len - i);
            assert(tail[0] == s@[i as int]);
        }
        let width: usize;
        if b0 < 0x80 {
            proof {
                assert(is_leading_byte_width_1(b0));
                assert(decode_first_codepoint(tail) == codepoint_width_1(b0));
                assert(codepoint_width_1(b0) < 0x80) by (bit_vector)
                    requires
                        b0 < 0x80,
                ;
                assert(valid_first_scalar(tail));
            }
            width = 1;
        } else if b0 < 0xc0 {
            // A continuation byte cannot lead a scalar.
            proof {
                assert(!valid_leading_and_continuation_bytes_first_codepoint(tail));
            }
            return false;
        } else if b0 < 0xe0 {
            if len - i < 2 {
                proof {
                    assert(!valid_leading_and_continuation_bytes_first_codepoint(tail));
                }
                return false;
            }
            let b1 = s[i + 1];
            proof {
                assert(tail[1] == s@[i + 1]);
            }
            if !(0x80 <= b1 && b1 <= 0xbf) {
                proof {
                    assert(!valid_leading_and_continuation_bytes_first_codepoint(tail));
                }
                return false;
            }
            let cp: u32 = (((b0 & 0x1f) as u32) << 6u32) | ((b1 & 0x3f) as u32);
            proof {
                assert(is_leading_byte_width_2(b0) && is_continuation_byte(b1));
                assert(decode_first_codepoint(tail) == codepoint_width_2(b0, b1));
                assert(cp == codepoint_width_2(b0, b1));
                assert(cp <= 0x7ff) by (bit_vector)
                    requires
                        cp == (((b0 & 0x1f) as u32) << 6u32) | ((b1 & 0x3f) as u32),
                ;
            }
            if cp < 0x80 {
                // Overlong: two bytes for a value one byte can hold.
                proof {
                    assert(!valid_first_scalar(tail));
                }
                return false;
            }
            proof {
                assert(valid_first_scalar(tail));
            }
            width = 2;
        } else if b0 < 0xf0 {
            if len - i < 3 {
                proof {
                    assert(!valid_leading_and_continuation_bytes_first_codepoint(tail));
                }
                return false;
            }
            let b1 = s[i + 1];
            let b2 = s[i + 2];
            proof {
                assert(tail[1] == s@[i + 1] && tail[2] == s@[i + 2]);
            }
            if !(0x80 <= b1 && b1 <= 0xbf) || !(0x80 <= b2 && b2 <= 0xbf) {
                proof {
                    assert(!valid_leading_and_continuation_bytes_first_codepoint(tail));
                }
                return false;
            }
            let cp: u32 = (((b0 & 0x0f) as u32) << 12u32) | (((b1 & 0x3f) as u32) << 6u32) | ((
            b2 & 0x3f) as u32);
            proof {
                assert(is_leading_byte_width_3(b0));
                assert(decode_first_codepoint(tail) == codepoint_width_3(b0, b1, b2));
                assert(cp == codepoint_width_3(b0, b1, b2));
                assert(cp <= 0xffff) by (bit_vector)
                    requires
                        cp == (((b0 & 0x0f) as u32) << 12u32) | (((b1 & 0x3f) as u32) << 6u32)
                            | ((b2 & 0x3f) as u32),
                ;
            }
            if cp < 0x800 || (0xd800 <= cp && cp <= 0xdfff) {
                // Overlong encoding or surrogate code point.
                proof {
                    assert(!valid_first_scalar(tail));
                }
                return false;
            }
            proof {
                assert(valid_first_scalar(tail));
            }
            width = 3;
        } else if b0 < 0xf8 {
            if len - i < 4 {
                proof {
                    assert(!valid_leading_and_continuation_bytes_first_codepoint(tail));
                }
                return false;
            }
            let b1 = s[i + 1];
            let b2 = s[i + 2];
            let b3 = s[i + 3];
            proof {
                assert(tail[1] == s@[i + 1] && tail[2] == s@[i + 2] && tail[3] == s@[i + 3]);
            }
            if !(0x80 <= b1 && b1 <= 0xbf) || !(0x80 <= b2 && b2 <= 0xbf) || !(0x80 <= b3 && b3
                <= 0xbf) {
                proof {
                    assert(!valid_leading_and_continuation_bytes_first_codepoint(tail));
                }
                return false;
            }
            let cp: u32 = (((b0 & 0x07) as u32) << 18u32) | (((b1 & 0x3f) as u32) << 12u32) | (((
            b2 & 0x3f) as u32) << 6u32) | ((b3 & 0x3f) as u32);
            proof {
                assert(is_leading_byte_width_4(b0));
                assert(decode_first_codepoint(tail) == codepoint_width_4(b0, b1, b2, b3));
                assert(cp == codepoint_width_4(b0, b1, b2, b3));
            }
            if cp < 0x10000 || cp > 0x10ffff {
                // Overlong encoding or beyond the last code point.
                proof {
                    assert(!valid_first_scalar(tail));
                }
                return false;
            }
            proof {
                assert(valid_first_scalar(tail));
            }
            width = 4;
        } else {
            // 0xf8 and above lead nothing in UTF-8.
            proof {
                assert(!valid_leading_and_continuation_bytes_first_codepoint(tail));
            }
            return false;
        }
        proof {
            assert(length_of_first_codepoint(tail) == width);
            assert(pop_first_scalar(tail) =~= s@.skip(i + width));
            assert(valid_utf8(tail) == valid_utf8(s@.skip(i + width)));
        }
        i = i + width;
    }
    proof {
        assert(s@.skip(len as int) =~= Seq::<u8>::empty());
    }
    true
}

} // verus!
