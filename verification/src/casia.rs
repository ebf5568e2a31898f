//! Layout of the CASIA iris database v1.0: which images exist and where.
//!
//! Subjects `1 ..= SUBJECTS`; per subject, session 1 holds `SESSION1_IMAGES`
//! images and session 2 `SESSION2_IMAGES`. Image `(s, k, i)` lies at
//! `sss/k/sss_k_i.bmp`, `sss` being the subject number padded to three digits.

use crate::arrays::{image8_cells, image8_shape, nonzero_product, Image8};
use crate::types::ImageId;
use vstd::prelude::*;
use vstd::string::StringExecFns;

verus! {

pub const SUBJECTS: u16 = 108;

pub const SESSION1_IMAGES: u8 = 3;

pub const SESSION2_IMAGES: u8 = 4;

pub const IMAGES_PER_SUBJECT: usize = 7;

pub const TOTAL_IMAGES: usize = 756;

/// The `k`-th image of the database, in subject, session, index order.
pub open spec fn casia_id(k: int) -> ImageId {
    let subject = k / IMAGES_PER_SUBJECT as int + 1;
    let within = k % IMAGES_PER_SUBJECT as int;
    if within < SESSION1_IMAGES {
        ImageId { subject: subject as u16, session: 1, index: (within + 1) as u8 }
    } else {
        ImageId { subject: subject as u16, session: 2, index: (within - 2) as u8 }
    }
}

/// An identifier names an image of the database.
pub open spec fn is_casia_id(id: ImageId) -> bool {
    &&& 1 <= id.subject <= SUBJECTS
    &&& (id.session == 1 && 1 <= id.index <= SESSION1_IMAGES) || (id.session == 2 && 1 <= id.index
        <= SESSION2_IMAGES)
}

/// Every image of the database, subject by subject, session 1 before
/// session 2, in index order.
pub fn image_ids() -> (res: Vec<ImageId>)
    ensures
        res@.len() == TOTAL_IMAGES,
        forall|k: int| 0 <= k < TOTAL_IMAGES ==> #[trigger] res@[k] == casia_id(k),
{
    let mut out: Vec<ImageId> = Vec::new();
    for subject in 1..SUBJECTS + 1
        invariant
            out@.len() == (subject - 1) * 7,
            forall|k: int| 0 <= k < out@.len() ==> #[trigger] out@[k] == casia_id(k),
    {
        for session in 1..3u8
            invariant
                1 <= subject <= SUBJECTS,
                out@.len() == (subject - 1) * 7 + if session == 1 {
                    0int
                } else if session == 2 {
                    3int
                } else {
                    7int
                },
                forall|k: int| 0 <= k < out@.len() ==> #[trigger] out@[k] == casia_id(k),
        {
            let count = if session == 1 {
                SESSION1_IMAGES
            } else {
                SESSION2_IMAGES
            };
            for index in 1..count + 1
                invariant
                    1 <= subject <= SUBJECTS,
                    1 <= session <= 2,
                    count == if session == 1 {
                        3u8
                    } else {
                        4u8
                    },
                    out@.len() == (subject - 1) * 7 + (if session == 1 {
                        0int
                    } else {
                        3int
                    }) + index - 1,
                    forall|k: int| 0 <= k < out@.len() ==> #[trigger] out@[k] == casia_id(k),
            {
                let ghost k = out@.len() as int;
                out.push(ImageId { subject, session, index });
                proof {
                    let within = (if session == 1 {
                        0int
                    } else {
                        3int
                    }) + index - 1;
                    vstd::arithmetic::div_mod::lemma_fundamental_div_mod_converse(
                        k,
                        7,
                        subject - 1,
                        within,
                    );
                    assert(out@[k] == casia_id(k));
                }
            }
        }
    }
    out
}

/// Different positions name different images.
pub proof fn law_image_ids_distinct(i: int, j: int)
    requires
        0 <= i < TOTAL_IMAGES,
        0 <= j < TOTAL_IMAGES,
        i != j,
    ensures
        casia_id(i) != casia_id(j),
{
    vstd::arithmetic::div_mod::lemma_fundamental_div_mod(i, 7);
    vstd::arithmetic::div_mod::lemma_fundamental_div_mod(j, 7);
}

/// The listing names exactly the images of the database: each position
/// names one, and each one has a position.
pub proof fn law_image_ids_complete(id: ImageId)
    ensures
        is_casia_id(id) <==> exists|k: int| 0 <= k < TOTAL_IMAGES && #[trigger] casia_id(k) == id,
{
    if is_casia_id(id) {
        let within: int = if id.session == 1 {
            id.index - 1
        } else {
            id.index + 2
        };
        let k = (id.subject - 1) * 7 + within;
        vstd::arithmetic::div_mod::lemma_fundamental_div_mod_converse(k, 7, id.subject - 1, within);
        assert(casia_id(k) == id);
    }
    assert forall|k: int| 0 <= k < TOTAL_IMAGES implies is_casia_id(#[trigger] casia_id(k)) by {
        vstd::arithmetic::div_mod::lemma_fundamental_div_mod(k, 7);
    }
}

/// The character of decimal digit `d`.
pub open spec fn digit_char(d: int) -> char {
    (48 + d) as char
}

/// The decimal numeral of `n`, without leading zeros.
pub open spec fn decimal(n: nat) -> Seq<char>
    decreases n,
{
    if n < 10 {
        seq![digit_char(n as int)]
    } else {
        decimal(n / 10).push(digit_char((n % 10) as int))
    }
}

/// The decimal numeral of `n`, padded with zeros to at least three digits.
pub open spec fn padded3(n: nat) -> Seq<char> {
    if n < 10 {
        seq!['0', '0'] + decimal(n)
    } else if n < 100 {
        seq!['0'] + decimal(n)
    } else {
        decimal(n)
    }
}

/// Every character is a decimal digit.
pub open spec fn all_digits(s: Seq<char>) -> bool {
    forall|i: int| 0 <= i < s.len() ==> '0' <= #[trigger] s[i] <= '9'
}

/// The number that a string of decimal digits reads as.
pub open spec fn numeral_value(s: Seq<char>) -> int
    decreases s.len(),
{
    if s.len() == 0 {
        0
    } else {
        numeral_value(s.drop_last()) * 10 + (s.last() as int - 48)
    }
}

proof fn lemma_leading_zero(s: Seq<char>)
    ensures
        numeral_value(seq!['0'] + s) == numeral_value(s),
    decreases s.len(),
{
    if s.len() == 0 {
        let z = seq!['0'];
        assert(seq!['0'] + s =~= z);
        assert(z.drop_last() =~= Seq::<char>::empty());
        assert(numeral_value(z.drop_last()) == 0);
        assert(z.last() as int == 48);
        assert(numeral_value(z) == 0);
    } else {
        lemma_leading_zero(s.drop_last());
        let t = seq!['0'] + s;
        assert(t.drop_last() =~= seq!['0'] + s.drop_last());
        assert(t.last() == s.last());
        assert(numeral_value(t) == numeral_value(t.drop_last()) * 10 + (t.last() as int - 48));
    }
}

/// The decimal numeral of `n` is all digits, reads back as `n` and starts
/// with a digit other than `0` unless `n` is zero; it has one digit below 10,
/// two below 100 and three below 1000.
pub proof fn law_decimal(n: nat)
    ensures
        all_digits(decimal(n)),
        numeral_value(decimal(n)) == n,
        decimal(n).len() >= 1,
        n >= 1 ==> decimal(n)[0] != '0',
        n < 10 ==> decimal(n).len() == 1,
        10 <= n < 100 ==> decimal(n).len() == 2,
        100 <= n < 1000 ==> decimal(n).len() == 3,
    decreases n,
{
    if n < 10 {
        let s = decimal(n);
        assert(s.drop_last() =~= Seq::<char>::empty());
        assert(numeral_value(s.drop_last()) == 0);
        assert(digit_char(n as int) as int == 48 + n);
        assert(s.last() == digit_char(n as int));
        assert(numeral_value(s) == numeral_value(s.drop_last()) * 10 + (s.last() as int - 48));
    } else {
        law_decimal(n / 10);
        let s = decimal(n);
        let d = (n % 10) as int;
        assert(s.drop_last() =~= decimal(n / 10));
        assert(digit_char(d) as int == 48 + d);
        assert(s.last() == digit_char(d));
        assert(numeral_value(s) == numeral_value(s.drop_last()) * 10 + (s.last() as int - 48));
        assert(s[0] == decimal(n / 10)[0]);
    }
}

/// The three-digit subject numeral is all digits and reads back as the
/// subject number; below 1000 it has exactly three digits, and from 100 on
/// it has no leading `0` (so from 100 to 999 it is the number's own three
/// digits).
pub proof fn law_padded3(n: nat)
    ensures
        all_digits(padded3(n)),
        numeral_value(padded3(n)) == n,
        n < 1000 ==> padded3(n).len() == 3,
        n >= 100 ==> padded3(n)[0] != '0',
{
    law_decimal(n);
    if n < 10 {
        lemma_leading_zero(decimal(n));
        lemma_leading_zero(seq!['0'] + decimal(n));
        assert(seq!['0', '0'] + decimal(n) =~= seq!['0'] + (seq!['0'] + decimal(n)));
    } else if n < 100 {
        lemma_leading_zero(decimal(n));
    }
}

/// The relative path of an image: subject directory, session directory,
/// file name.
pub open spec fn image_path_spec(id: ImageId) -> (Seq<char>, Seq<char>, Seq<char>) {
    (
        padded3(id.subject as nat),
        decimal(id.session as nat),
        padded3(id.subject as nat) + seq!['_'] + decimal(id.session as nat) + seq!['_'] + decimal(
            id.index as nat,
        ) + seq!['.', 'b', 'm', 'p'],
    )
}

fn digit_str(d: u32) -> (res: &'static str)
    requires
        d < 10,
    ensures
        res@ == seq![digit_char(d as int)],
{
    if d == 0 {
        proof {
            reveal_strlit("0");
        }
        "0"
    } else if d == 1 {
        proof {
            reveal_strlit("1");
        }
        "1"
    } else if d == 2 {
        proof {
            reveal_strlit("2");
        }
        "2"
    } else if d == 3 {
        proof {
            reveal_strlit("3");
        }
        "3"
    } else if d == 4 {
        proof {
            reveal_strlit("4");
        }
        "4"
    } else if d == 5 {
        proof {
            reveal_strlit("5");
        }
        "5"
    } else if d == 6 {
        proof {
            reveal_strlit("6");
        }
        "6"
    } else if d == 7 {
        proof {
            reveal_strlit("7");
        }
        "7"
    } else if d == 8 {
        proof {
            reveal_strlit("8");
        }
        "8"
    } else {
        proof {
            reveal_strlit("9");
        }
        "9"
    }
}

fn push_decimal(s: &mut String, n: u32)
    ensures
        final(s)@ == old(s)@ + decimal(n as nat),
    decreases n,
{
    if n >= 10 {
        push_decimal(s, n / 10);
    }
    let d = digit_str(n % 10);
    s.append(d);
    proof {
        if n < 10 {
            assert(n % 10 == n);
        }
    }
}

fn push_padded3(s: &mut String, n: u32)
    ensures
        final(s)@ == old(s)@ + padded3(n as nat),
{
    if n < 10 {
        proof {
            reveal_strlit("00");
        }
        s.append("00");
    } else if n < 100 {
        proof {
            reveal_strlit("0");
        }
        s.append("0");
    }
    push_decimal(s, n);
}

/// Where an image lies under the database root: the subject directory (the
/// subject number padded to three digits), the session directory, and the
/// file name `sss_k_i.bmp`.
pub fn image_path_parts(id: ImageId) -> (res: (String, String, String))
    ensures
        (res.0@, res.1@, res.2@) == image_path_spec(id),
        all_digits(res.0@),
        numeral_value(res.0@) == id.subject,
        id.subject < 1000 ==> res.0@.len() == 3,
        id.subject >= 100 ==> res.0@[0] != '0',
        all_digits(res.1@),
        numeral_value(res.1@) == id.session,
        id.session >= 1 ==> res.1@[0] != '0',
        res.2@.len() > res.0@.len() && res.2@.subrange(0, res.0@.len() as int) == res.0@,
{
    let mut subject_dir = String::new();
    push_padded3(&mut subject_dir, id.subject as u32);
    let mut session_dir = String::new();
    push_decimal(&mut session_dir, id.session as u32);
    let mut file = String::new();
    push_padded3(&mut file, id.subject as u32);
    proof {
        reveal_strlit("_");
        reveal_strlit(".bmp");
    }
    file.append("_");
    push_decimal(&mut file, id.session as u32);
    file.append("_");
    push_decimal(&mut file, id.index as u32);
    file.append(".bmp");
    proof {
        assert(subject_dir@ =~= padded3(id.subject as nat));
        assert(session_dir@ =~= decimal(id.session as nat));
        assert(file@ =~= image_path_spec(id).2);
        law_padded3(id.subject as nat);
        law_decimal(id.session as nat);
        assert(file@.subrange(0, subject_dir@.len() as int) =~= subject_dir@);
    }
    (subject_dir, session_dir, file)
}

/// Rows, columns and raw 8-bit grey buffer of an encoded image's bytes, the
/// image format guessed from the bytes; `None` where they do not decode.
pub uninterp spec fn decoded_luma8(bytes: Seq<u8>) -> Option<(nat, nat, Seq<u8>)>;

/// `image::load_from_memory(bytes)` followed by `to_luma8()`: the decoded
/// image in 8-bit grey, as its height, width and raw buffer (`into_raw`);
/// `None` where the crate reports an error. What the pixels are is named,
/// not stated; a `Vec<u8>` never holds more than `isize::MAX` bytes.
#[verifier::external_body]
fn decode_luma8(bytes: &Vec<u8>) -> (res: Option<(usize, usize, Vec<u8>)>)
    ensures
        match res {
            Some((h, w, px)) => decoded_luma8(bytes@) == Some((h as nat, w as nat, px@)) && px@.len()
                <= isize::MAX,
            None => decoded_luma8(bytes@) is None,
        },
{
    match image::load_from_memory(bytes.as_slice()) {
        Ok(img) => {
            let gray = img.to_luma8();
            Some((gray.height() as usize, gray.width() as usize, gray.into_raw()))
        },
        Err(_) => None,
    }
}

/// An encoded image file decoded to 8-bit grey, rows by columns; `None`
/// where the bytes do not decode, or the decoded buffer does not hold
/// exactly `rows * columns` pixels, or the shape is too large for an array.
pub fn load_grayscale(bytes: &Vec<u8>) -> (res: Option<Image8>)
    ensures
        res is Some <==> (decoded_luma8(bytes@) matches Some((h, w, px)) && px.len() == h * w
            && nonzero_product(h as int, w as int, 1) <= isize::MAX),
        res matches Some(img) ==> decoded_luma8(bytes@) == Some(
            (image8_shape(img).0, image8_shape(img).1, image8_cells(img)),
        ),
{
    match decode_luma8(bytes) {
        None => None,
        Some((h, w, px)) => {
            let n = px.len();
            match h.checked_mul(w) {
                None => {
                    return None;
                },
                Some(cells) => {
                    if n != cells {
                        return None;
                    }
                },
            }
            let hh: usize = if h == 0 {
                1
            } else {
                h
            };
            let ww: usize = if w == 0 {
                1
            } else {
                w
            };
            let limit = isize::MAX as usize;
            if hh > limit / ww {
                proof {
                    assert(hh * ww > limit) by (nonlinear_arith)
                        requires
                            hh > limit / ww,
                            ww > 0,
                    ;
                    assert(hh * ww * 1 == hh * ww);
                    assert(nonzero_product(h as int, w as int, 1) == hh * ww);
                }
                return None;
            }
            proof {
                assert(hh * ww <= limit) by (nonlinear_arith)
                    requires
                        hh <= limit / ww,
                        ww > 0,
                ;
                assert(hh * ww * 1 == hh * ww);
                assert(nonzero_product(h as int, w as int, 1) == hh * ww);
            }
            Some(Image8::from_pixels(h, w, &px))
        },
    }
}

} // verus!
