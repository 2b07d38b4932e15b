//! The plain-text pixel image format.
//!
//! The emitted text is a header line `P3`, a line `<width> <height> ` (the
//! trailing space is tolerated by readers of the format), a line `255`, and
//! then one line `<R> <G> <B>` per pixel in row-major, top-to-bottom,
//! left-to-right order.  `image_bytes` states the exact byte sequence;
//! `parse_image` states how a reader recovers the dimensions and the pixel
//! count from such text.

use vstd::prelude::*;
use vstd::arithmetic::div_mod::lemma_mod_bound;

verus! {

/// A quantized pixel: one byte per channel.
#[derive(Clone, Copy, PartialEq, Eq, Structural, Debug)]
pub struct Rgb {
    pub r: u8,
    pub g: u8,
    pub b: u8,
}

/// ASCII decimal digit.
pub open spec fn is_digit(b: u8) -> bool {
    48 <= b <= 57
}

/// Decimal representation of `n`, most significant digit first, no sign and
/// no leading zeros (a single zero digit for zero).
pub open spec fn dec_rep(n: nat) -> Seq<u8>
    decreases n,
{
    if n < 10 {
        seq![(48 + n) as u8]
    } else {
        dec_rep(n / 10) + seq![(48 + n % 10) as u8]
    }
}

/// The header: `P3`, newline, width, space, height, space, newline, `255`,
/// newline.
pub open spec fn header_bytes(w: nat, h: nat) -> Seq<u8> {
    seq![80u8, 51u8, 10u8] + dec_rep(w) + seq![32u8] + dec_rep(h) + seq![
        32u8,
        10u8,
        50u8,
        53u8,
        53u8,
        10u8,
    ]
}

/// One pixel line: the three channel values separated by spaces, newline
/// terminated.
pub open spec fn pixel_bytes(p: Rgb) -> Seq<u8> {
    dec_rep(p.r as nat) + seq![32u8] + dec_rep(p.g as nat) + seq![32u8] + dec_rep(p.b as nat)
        + seq![10u8]
}

/// All pixel lines, in order.
pub open spec fn pixels_bytes(px: Seq<Rgb>) -> Seq<u8>
    decreases px.len(),
{
    if px.len() == 0 {
        Seq::empty()
    } else {
        pixel_bytes(px[0]) + pixels_bytes(px.drop_first())
    }
}

/// The whole image text.
pub open spec fn image_bytes(w: nat, h: nat, px: Seq<Rgb>) -> Seq<u8> {
    header_bytes(w, h) + pixels_bytes(px)
}

/// The index just past the run of digits starting at `i`.
pub open spec fn digit_run_end(s: Seq<u8>, i: int) -> int
    decreases s.len() - i,
{
    if 0 <= i < s.len() && is_digit(s[i]) {
        digit_run_end(s, i + 1)
    } else {
        i
    }
}

/// The value accumulated over the run of digits starting at `i`.
pub open spec fn digit_run_val(s: Seq<u8>, i: int, acc: nat) -> nat
    decreases s.len() - i,
{
    if 0 <= i < s.len() && is_digit(s[i]) {
        digit_run_val(s, i + 1, acc * 10 + (s[i] - 48) as nat)
    } else {
        acc
    }
}

/// Counts newline-terminated pixel lines of the form
/// `<digits> <digits> <digits>` from `i` to the end of the text; no other
/// shape is accepted.
pub open spec fn parse_pixels(s: Seq<u8>, i: int) -> Option<nat>
    decreases s.len() - i,
{
    if i == s.len() {
        Some(0)
    } else if 0 <= i < s.len() {
        let ia = digit_run_end(s, i);
        if ia > i && ia < s.len() && s[ia] == 32 {
            let ib = digit_run_end(s, ia + 1);
            if ib > ia + 1 && ib < s.len() && s[ib] == 32 {
                let ic = digit_run_end(s, ib + 1);
                if ic > ib + 1 && ic < s.len() && s[ic] == 10 {
                    match parse_pixels(s, ic + 1) {
                        Some(c) => Some(c + 1),
                        None => None,
                    }
                } else {
                    None
                }
            } else {
                None
            }
        } else {
            None
        }
    } else {
        None
    }
}

/// Re-parses image text: the header must read `P3`, then width and height,
/// then `255`; the result is the width, the height, and the number of pixel
/// lines to the end of the text.
pub open spec fn parse_image(s: Seq<u8>) -> Option<(nat, nat, nat)> {
    if s.len() >= 3 && s[0] == 80 && s[1] == 51 && s[2] == 10 {
        let iw = digit_run_end(s, 3);
        if iw > 3 && iw < s.len() && s[iw] == 32 {
            let w = digit_run_val(s, 3, 0);
            let ih = digit_run_end(s, iw + 1);
            if ih > iw + 1 && ih + 6 <= s.len() && s[ih] == 32 && s[ih + 1] == 10 && s[ih + 2]
                == 50 && s[ih + 3] == 53 && s[ih + 4] == 53 && s[ih + 5] == 10 {
                let h = digit_run_val(s, iw + 1, 0);
                match parse_pixels(s, ih + 6) {
                    Some(c) => Some((w, h, c)),
                    None => None,
                }
            } else {
                None
            }
        } else {
            None
        }
    } else {
        None
    }
}

/// Powers of ten.
pub open spec fn pow10(k: nat) -> nat
    decreases k,
{
    if k == 0 {
        1
    } else {
        10 * pow10((k - 1) as nat)
    }
}

/// A decimal representation laid down inside a longer text advances a digit
/// run over exactly its own digits, folding its value into the accumulator.
proof fn lemma_digit_run_of_rep(s: Seq<u8>, i: int, n: nat, acc: nat)
    requires
        0 <= i,
        i + dec_rep(n).len() <= s.len(),
        s.subrange(i, i + dec_rep(n).len() as int) == dec_rep(n),
    ensures
        digit_run_end(s, i) == digit_run_end(s, i + dec_rep(n).len()),
        digit_run_val(s, i, acc) == digit_run_val(
            s,
            i + dec_rep(n).len(),
            acc * pow10(dec_rep(n).len()) + n,
        ),
    decreases n,
{
    lemma_mod_bound(n as int, 10);
    if n < 10 {
        assert(s.subrange(i, i + 1)[0] == s[i]);
        assert(s[i] == (48 + n) as u8);
        assert(is_digit(s[i]));
        assert(pow10(0) == 1);
        assert(pow10(1) == 10);
        assert((s[i] - 48) as nat == n);
        assert(acc * 10 + n == acc * pow10(1) + n);
    } else {
        let a = dec_rep(n / 10);
        let la = a.len() as int;
        let l = dec_rep(n).len() as int;
        assert(dec_rep(n) == a + seq![(48 + n % 10) as u8]);
        assert(l == la + 1);
        assert(s.subrange(i, i + la) =~= a) by {
            assert forall|k: int| 0 <= k < la implies s.subrange(i, i + la)[k] == a[k] by {
                assert(s.subrange(i, i + l)[k] == s[i + k]);
                assert(s.subrange(i, i + l)[k] == (a + seq![(48 + n % 10) as u8])[k]);
            }
        }
        lemma_digit_run_of_rep(s, i, n / 10, acc);
        assert(s.subrange(i, i + l)[la] == s[i + la]);
        assert(s[i + la] == (48 + n % 10) as u8);
        assert(is_digit(s[i + la]));
        let acc2 = acc * pow10(la as nat) + n / 10;
        assert(digit_run_end(s, i + la) == digit_run_end(s, i + l));
        assert(digit_run_val(s, i + la, acc2) == digit_run_val(s, i + l, acc2 * 10 + (s[i + la]
            - 48) as nat));
        assert((s[i + la] - 48) as nat == n % 10);
        assert(pow10((la + 1) as nat) == 10 * pow10(la as nat));
        assert(acc2 * 10 + n % 10 == acc * pow10((la + 1) as nat) + n) by (nonlinear_arith)
            requires
                acc2 == acc * pow10(la as nat) + n / 10,
                pow10((la + 1) as nat) == 10 * pow10(la as nat),
                n as int == 10 * (n as int / 10) + (n as int % 10),
                n / 10 == (n as int / 10),
                n % 10 == (n as int % 10),
        ;
    }
}

/// At a non-digit (or the end of the text), a digit run neither advances nor
/// changes the accumulator; a decimal representation followed by such a
/// boundary therefore parses back to exactly its value.
proof fn lemma_parse_number(s: Seq<u8>, i: int, n: nat)
    requires
        0 <= i,
        i + dec_rep(n).len() <= s.len(),
        s.subrange(i, i + dec_rep(n).len() as int) == dec_rep(n),
        i + dec_rep(n).len() == s.len() || !is_digit(s[i + dec_rep(n).len()]),
    ensures
        dec_rep(n).len() >= 1,
        digit_run_end(s, i) == i + dec_rep(n).len(),
        digit_run_val(s, i, 0) == n,
{
    lemma_digit_run_of_rep(s, i, n, 0);
    let j = i + dec_rep(n).len();
    assert(digit_run_end(s, j) == j);
    assert(digit_run_val(s, j, 0 * pow10(dec_rep(n).len()) + n) == 0 * pow10(dec_rep(n).len())
        + n);
    assert(0 * pow10(dec_rep(n).len()) == 0) by (nonlinear_arith);
}

/// Splits a known subrange of a text at a concatenation seam.
proof fn lemma_split_subrange(s: Seq<u8>, i: int, a: Seq<u8>, b: Seq<u8>)
    requires
        0 <= i,
        i + a.len() + b.len() <= s.len(),
        s.subrange(i, i + a.len() + b.len()) == a + b,
    ensures
        s.subrange(i, i + a.len() as int) == a,
        s.subrange(i + a.len() as int, i + a.len() + b.len()) == b,
{
    let j = i + a.len() + b.len();
    assert forall|k: int| 0 <= k < a.len() implies s.subrange(i, i + a.len() as int)[k] == a[k] by {
        assert(s.subrange(i, j)[k] == s[i + k]);
        assert(s.subrange(i, j)[k] == (a + b)[k]);
    }
    assert(s.subrange(i, i + a.len() as int) =~= a);
    assert forall|k: int| 0 <= k < b.len() implies s.subrange(i + a.len() as int, j)[k] == b[k] by {
        assert(s.subrange(i, j)[a.len() + k] == s[i + a.len() + k]);
        assert(s.subrange(i, j)[a.len() + k] == (a + b)[a.len() + k]);
    }
    assert(s.subrange(i + a.len() as int, j) =~= b);
}

/// Text that is exactly the pixel lines of `px` from position `i` to its end
/// parses back to the pixel count.
proof fn lemma_parse_pixels_rt(s: Seq<u8>, i: int, px: Seq<Rgb>)
    requires
        0 <= i <= s.len(),
        i + pixels_bytes(px).len() == s.len(),
        s.subrange(i, s.len() as int) == pixels_bytes(px),
    ensures
        parse_pixels(s, i) == Some(px.len()),
    decreases px.len(),
{
    if px.len() == 0 {
        assert(i == s.len());
    } else {
        let p = px[0];
        let dr = dec_rep(p.r as nat);
        let dg = dec_rep(p.g as nat);
        let db = dec_rep(p.b as nat);
        let line = pixel_bytes(p);
        let rest = pixels_bytes(px.drop_first());
        assert(pixels_bytes(px) == line + rest);
        lemma_split_subrange(s, i, line, rest);
        let r1 = seq![32u8] + dg + seq![32u8] + db + seq![10u8];
        assert(line =~= dr + r1);
        lemma_split_subrange(s, i, dr, r1);
        let ia = i + dr.len();
        let r2 = dg + seq![32u8] + db + seq![10u8];
        assert(r1 =~= seq![32u8] + r2);
        lemma_split_subrange(s, ia, seq![32u8], r2);
        assert(s.subrange(ia, ia + 1)[0] == s[ia]);
        assert(s[ia] == 32);
        lemma_parse_number(s, i, p.r as nat);
        let r3 = seq![32u8] + db + seq![10u8];
        assert(r2 =~= dg + r3);
        lemma_split_subrange(s, ia + 1, dg, r3);
        let ib = ia + 1 + dg.len();
        let r4 = db + seq![10u8];
        assert(r3 =~= seq![32u8] + r4);
        lemma_split_subrange(s, ib, seq![32u8], r4);
        assert(s.subrange(ib, ib + 1)[0] == s[ib]);
        assert(s[ib] == 32);
        lemma_parse_number(s, ia + 1, p.g as nat);
        lemma_split_subrange(s, ib + 1, db, seq![10u8]);
        let ic = ib + 1 + db.len();
        assert(s.subrange(ic, ic + 1)[0] == s[ic]);
        assert(s[ic] == 10);
        lemma_parse_number(s, ib + 1, p.b as nat);
        assert(line.len() == dr.len() + 1 + dg.len() + 1 + db.len() + 1);
        assert(ic + 1 == i + line.len());
        lemma_parse_pixels_rt(s, ic + 1, px.drop_first());
        assert(digit_run_end(s, i) == ia);
        assert(digit_run_end(s, ia + 1) == ib);
        assert(digit_run_end(s, ib + 1) == ic);
        assert(parse_pixels(s, i) == Some(px.len()));
    }
}

/// Re-parsing the emitted image text recovers the width, the height, and the
/// pixel count exactly.
#[verifier::rlimit(100)]
pub proof fn lemma_parse_image_bytes(w: nat, h: nat, px: Seq<Rgb>)
    ensures
        parse_image(image_bytes(w, h, px)) == Some((w, h, px.len())),
{
    let s = image_bytes(w, h, px);
    let dw = dec_rep(w);
    let dh = dec_rep(h);
    let tail = seq![32u8, 10u8, 50u8, 53u8, 53u8, 10u8];
    let pxb = pixels_bytes(px);
    let magic = seq![80u8, 51u8, 10u8];
    assert(s =~= magic + (dw + (seq![32u8] + (dh + (tail + pxb)))));
    assert(s.subrange(0, s.len() as int) =~= s);
    lemma_split_subrange(s, 0, magic, dw + (seq![32u8] + (dh + (tail + pxb))));
    assert(s.subrange(0, 3)[0] == s[0] && s.subrange(0, 3)[1] == s[1] && s.subrange(0, 3)[2]
        == s[2]);
    assert(s[0] == 80 && s[1] == 51 && s[2] == 10);
    lemma_split_subrange(s, 3, dw, seq![32u8] + (dh + (tail + pxb)));
    let iw = 3 + dw.len() as int;
    lemma_split_subrange(s, iw, seq![32u8], dh + (tail + pxb));
    assert(s.subrange(iw, iw + 1)[0] == s[iw]);
    assert(s[iw] == 32);
    lemma_parse_number(s, 3, w);
    lemma_split_subrange(s, iw + 1, dh, tail + pxb);
    let ih = iw + 1 + dh.len() as int;
    lemma_split_subrange(s, ih, tail, pxb);
    assert(s.subrange(ih, ih + 6)[0] == s[ih] && s.subrange(ih, ih + 6)[1] == s[ih + 1]
        && s.subrange(ih, ih + 6)[2] == s[ih + 2] && s.subrange(ih, ih + 6)[3] == s[ih + 3]
        && s.subrange(ih, ih + 6)[4] == s[ih + 4] && s.subrange(ih, ih + 6)[5] == s[ih + 5]);
    assert(s[ih] == 32 && s[ih + 1] == 10 && s[ih + 2] == 50 && s[ih + 3] == 53 && s[ih + 4]
        == 53 && s[ih + 5] == 10);
    lemma_parse_number(s, iw + 1, h);
    lemma_parse_pixels_rt(s, ih + 6, px);
    assert(digit_run_end(s, 3) == iw);
    assert(digit_run_end(s, iw + 1) == ih);
    assert(parse_image(s) == Some((w, h, px.len())));
}

/// A digit run neither starts before its start nor runs past the text.
proof fn lemma_digit_run_end_bounds(s: Seq<u8>, i: int)
    requires
        0 <= i <= s.len(),
    ensures
        i <= digit_run_end(s, i) <= s.len(),
    decreases s.len() - i,
{
    if i < s.len() && is_digit(s[i]) {
        lemma_digit_run_end_bounds(s, i + 1);
    }
}

/// The accumulator never shrinks while a digit run is folded.
proof fn lemma_digit_run_val_ge(s: Seq<u8>, i: int, acc: nat)
    ensures
        digit_run_val(s, i, acc) >= acc,
    decreases s.len() - i,
{
    if 0 <= i < s.len() && is_digit(s[i]) {
        lemma_digit_run_val_ge(s, i + 1, acc * 10 + (s[i] - 48) as nat);
    }
}

/// The index just past the digit run starting at `i`.
fn scan_digits(bytes: &Vec<u8>, i: usize) -> (j: usize)
    requires
        i <= bytes@.len(),
    ensures
        j as int == digit_run_end(bytes@, i as int),
        i <= j <= bytes@.len(),
{
    let mut j: usize = i;
    while j < bytes.len() && 48 <= bytes[j] && bytes[j] <= 57
        invariant
            i <= j <= bytes@.len(),
            digit_run_end(bytes@, i as int) == digit_run_end(bytes@, j as int),
        decreases bytes@.len() - j,
    {
        j = j + 1;
    }
    proof {
        lemma_digit_run_end_bounds(bytes@, i as int);
    }
    j
}

/// Reads one decimal number: the digit run at `i` and its value, or nothing
/// when the run is empty or the value exceeds `u32::MAX`.
fn scan_number(bytes: &Vec<u8>, i: usize) -> (r: Option<(u32, usize)>)
    requires
        i <= bytes@.len(),
    ensures
        r matches Some((v, j)) ==> {
            &&& j as int == digit_run_end(bytes@, i as int)
            &&& v as nat == digit_run_val(bytes@, i as int, 0)
            &&& i < j <= bytes@.len()
        },
        r is None ==> digit_run_end(bytes@, i as int) == i as int || digit_run_val(
            bytes@,
            i as int,
            0,
        ) > u32::MAX,
{
    let mut j: usize = i;
    let mut acc: u32 = 0;
    while j < bytes.len() && 48 <= bytes[j] && bytes[j] <= 57
        invariant
            i <= j <= bytes@.len(),
            digit_run_end(bytes@, i as int) == digit_run_end(bytes@, j as int),
            digit_run_val(bytes@, i as int, 0) == digit_run_val(bytes@, j as int, acc as nat),
            i == j ==> acc == 0,
        decreases bytes@.len() - j,
    {
        let d: u8 = bytes[j] - 48;
        let next: u64 = (acc as u64) * 10 + (d as u64);
        if next > u32::MAX as u64 {
            proof {
                lemma_digit_run_val_ge(bytes@, j as int + 1, acc as nat * 10 + d as nat);
            }
            return None;
        }
        acc = next as u32;
        j = j + 1;
    }
    proof {
        lemma_digit_run_end_bounds(bytes@, i as int);
    }
    if j == i {
        None
    } else {
        Some((acc, j))
    }
}

/// Re-parses image text at run time, exactly as `parse_image` states it; the
/// only texts it rejects beyond `parse_image` are those whose width or height
/// does not fit in 32 bits.
#[verifier::loop_isolation(false)]
pub fn read_image(bytes: &Vec<u8>) -> (r: Option<(u32, u32, usize)>)
    ensures
        r matches Some((w, h, c)) ==> parse_image(bytes@) == Some(
            (w as nat, h as nat, c as nat),
        ),
        r is None ==> (parse_image(bytes@) matches Some(t) ==> t.0 > u32::MAX || t.1
            > u32::MAX),
{
    if bytes.len() < 3 || bytes[0] != 80 || bytes[1] != 51
        || bytes[2] != 10 {
        return None;
    }
    let (w, iw) = match scan_number(bytes, 3) {
        Some(x) => x,
        None => {
            return None;
        },
    };
    if iw >= bytes.len() || bytes[iw] != 32 {
        return None;
    }
    let (h, ih) = match scan_number(bytes, iw + 1) {
        Some(x) => x,
        None => {
            return None;
        },
    };
    if bytes.len() - ih < 6 {
        return None;
    }
    if bytes[ih] != 32 || bytes[ih + 1] != 10 || bytes[ih + 2] != 50 || bytes[ih + 3] != 53
        || bytes[ih + 4] != 53 || bytes[ih + 5] != 10 {
        return None;
    }
    let start: usize = ih + 6;
    let mut i: usize = start;
    let mut count: usize = 0;
    while i < bytes.len()
        invariant
            start <= i <= bytes@.len(),
            6 * count <= i - start,
            parse_pixels(bytes@, i as int) matches Some(c2) ==> parse_pixels(
                bytes@,
                start as int,
            ) == Some((c2 + count as nat) as nat),
            parse_pixels(bytes@, i as int) is None ==> parse_pixels(bytes@, start as int)
                is None,
        decreases bytes@.len() - i,
    {
        let ia = scan_digits(bytes, i);
        if !(ia > i && ia < bytes.len() && bytes[ia] == 32) {
            return None;
        }
        let ib = scan_digits(bytes, ia + 1);
        if !(ib > ia + 1 && ib < bytes.len() && bytes[ib] == 32) {
            return None;
        }
        let ic = scan_digits(bytes, ib + 1);
        if !(ic > ib + 1 && ic < bytes.len() && bytes[ic] == 10) {
            return None;
        }
        count = count + 1;
        i = ic + 1;
    }
    Some((w, h, count))
}

/// Appends the decimal representation of `n`.
fn push_dec(out: &mut Vec<u8>, n: u32)
    ensures
        final(out)@ == old(out)@ + dec_rep(n as nat),
    decreases n,
{
    if n >= 10 {
        push_dec(out, n / 10);
    }
    let d: u8 = (n % 10) as u8;
    out.push(48 + d);
    proof {
        if n < 10 {
            assert(out@ =~= old(out)@ + dec_rep(n as nat));
        } else {
            assert(out@ =~= old(out)@ + (dec_rep(n as nat / 10) + seq![
                (48 + n as nat % 10) as u8,
            ]));
        }
    }
}

/// Appends one pixel line.
fn push_pixel(out: &mut Vec<u8>, p: Rgb)
    ensures
        final(out)@ == old(out)@ + pixel_bytes(p),
{
    push_dec(out, p.r as u32);
    out.push(32);
    push_dec(out, p.g as u32);
    out.push(32);
    push_dec(out, p.b as u32);
    out.push(10);
    proof {
        assert(out@ =~= old(out)@ + pixel_bytes(p));
    }
}

/// Appending one pixel appends its line.
proof fn lemma_pixels_bytes_snoc(s: Seq<Rgb>, p: Rgb)
    ensures
        pixels_bytes(s.push(p)) == pixels_bytes(s) + pixel_bytes(p),
    decreases s.len(),
{
    if s.len() == 0 {
        assert(s.push(p).drop_first() =~= s);
        assert(s.push(p)[0] == p);
        assert(pixels_bytes(s) =~= Seq::<u8>::empty());
        assert(pixels_bytes(s.push(p)) =~= pixels_bytes(s) + pixel_bytes(p));
    } else {
        assert(s.push(p).drop_first() =~= s.drop_first().push(p));
        lemma_pixels_bytes_snoc(s.drop_first(), p);
        assert(pixels_bytes(s.push(p)) =~= pixels_bytes(s) + pixel_bytes(p));
    }
}

/// Serializes the image: the header for the given dimensions, then every
/// pixel's line in order.
pub fn format_image(width: u32, height: u32, px: &Vec<Rgb>) -> (out: Vec<u8>)
    ensures
        out@ == image_bytes(width as nat, height as nat, px@),
{
    let mut out: Vec<u8> = Vec::new();
    out.push(80);
    out.push(51);
    out.push(10);
    push_dec(&mut out, width);
    out.push(32);
    push_dec(&mut out, height);
    out.push(32);
    out.push(10);
    out.push(50);
    out.push(53);
    out.push(53);
    out.push(10);
    proof {
        assert(out@ =~= header_bytes(width as nat, height as nat));
    }
    let ghost head = out@;
    let mut i: usize = 0;
    while i < px.len()
        invariant
            i <= px@.len(),
            head == header_bytes(width as nat, height as nat),
            out@ == head + pixels_bytes(px@.take(i as int)),
        decreases px@.len() - i,
    {
        let p = px[i];
        push_pixel(&mut out, p);
        proof {
            lemma_pixels_bytes_snoc(px@.take(i as int), px@[i as int]);
            assert(px@.take(i as int + 1) =~= px@.take(i as int).push(px@[i as int]));
            assert(out@ =~= head + pixels_bytes(px@.take(i as int + 1)));
        }
        i = i + 1;
    }
    proof {
        assert(px@.take(px@.len() as int) =~= px@);
    }
    out
}

} // verus!
