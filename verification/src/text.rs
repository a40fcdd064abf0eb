//! Numbers and padding in text.

use vstd::prelude::*;
use vstd::string::StringExecFns;
use vstd::string::StrSliceExecFns;

verus! {

/// The text of the digit `d`.
pub open spec fn digit_text(d: int) -> Seq<char> {
    if d == 0 {
        "0"@
    } else if d == 1 {
        "1"@
    } else if d == 2 {
        "2"@
    } else if d == 3 {
        "3"@
    } else if d == 4 {
        "4"@
    } else if d == 5 {
        "5"@
    } else if d == 6 {
        "6"@
    } else if d == 7 {
        "7"@
    } else if d == 8 {
        "8"@
    } else {
        "9"@
    }
}

/// The decimal text of a number that is not negative.
pub open spec fn natural_text(n: nat) -> Seq<char>
    decreases n,
{
    if n < 10 {
        digit_text(n as int)
    } else {
        natural_text(n / 10) + digit_text((n % 10) as int)
    }
}

/// The decimal text of a number, with a minus sign if it is negative.
pub open spec fn decimal_text(x: int) -> Seq<char> {
    if x < 0 {
        "-"@ + natural_text((-x) as nat)
    } else {
        natural_text(x as nat)
    }
}

fn append_digit(out: &mut String, d: u8)
    requires
        d < 10,
    ensures
        final(out)@ == old(out)@ + digit_text(d as int),
{
    if d == 0 {
        out.append("0");
    } else if d == 1 {
        out.append("1");
    } else if d == 2 {
        out.append("2");
    } else if d == 3 {
        out.append("3");
    } else if d == 4 {
        out.append("4");
    } else if d == 5 {
        out.append("5");
    } else if d == 6 {
        out.append("6");
    } else if d == 7 {
        out.append("7");
    } else if d == 8 {
        out.append("8");
    } else {
        out.append("9");
    }
}

/// The text of the digits from position `k` up, the highest position
/// first.
pub open spec fn digits_text(digits: Seq<u8>, k: int) -> Seq<char>
    decreases digits.len() - k,
{
    if k < 0 || k >= digits.len() {
        Seq::empty()
    } else {
        digits_text(digits, k + 1) + digit_text(digits[k] as int)
    }
}

fn append_natural(out: &mut String, n: u64)
    ensures
        final(out)@ == old(out)@ + natural_text(n as nat),
{
    // the digits, the last first
    let mut digits: Vec<u8> = Vec::new();
    let mut rest: u64 = n;
    digits.push((rest % 10) as u8);
    rest = rest / 10;
    assert(digits_text(digits@, 0) =~= digit_text((n % 10) as int)) by {
        assert(digits_text(digits@, 1) =~= Seq::<char>::empty());
    }
    while rest > 0
        invariant
            digits@.len() >= 1,
            forall|i: int| 0 <= i < digits@.len() ==> (#[trigger] digits@[i]) < 10,
            natural_text(n as nat) == if rest == 0 {
                digits_text(digits@, 0)
            } else {
                natural_text(rest as nat) + digits_text(digits@, 0)
            },
        decreases rest,
    {
        let ghost before = digits@;
        let d: u8 = (rest % 10) as u8;
        digits.push(d);
        proof {
            lemma_digits_push(before, d, 0);
            if rest >= 10 {
                assert(natural_text((rest / 10) as nat) + digit_text(d as int) + digits_text(before, 0) =~= natural_text(
                    (rest / 10) as nat,
                ) + (digit_text(d as int) + digits_text(before, 0)));
            }
        }
        rest = rest / 10;
    }
    let mut k: usize = digits.len();
    assert(out@ + digits_text(digits@, k as int) =~= out@);
    while k > 0
        invariant
            k <= digits@.len(),
            forall|i: int| 0 <= i < digits@.len() ==> (#[trigger] digits@[i]) < 10,
            out@ == old(out)@ + digits_text(digits@, k as int),
        decreases k,
    {
        k -= 1;
        append_digit(out, digits[k]);
        assert(out@ =~= old(out)@ + digits_text(digits@, k as int));
    }
}

/// A digit put behind the others comes first in the text.
proof fn lemma_digits_push(digits: Seq<u8>, d: u8, k: int)
    requires
        0 <= k <= digits.len(),
    ensures
        digits_text(digits.push(d), k) == digit_text(d as int) + digits_text(digits, k),
    decreases digits.len() - k,
{
    let more = digits.push(d);
    if k < digits.len() {
        lemma_digits_push(digits, d, k + 1);
        assert(more[k] == digits[k]);
        assert(digit_text(d as int) + digits_text(digits, k + 1) + digit_text(digits[k] as int) =~= digit_text(d as int)
            + (digits_text(digits, k + 1) + digit_text(digits[k] as int)));
    } else {
        assert(digits_text(more, k + 1) =~= Seq::<char>::empty());
        assert(digits_text(digits, k) =~= Seq::<char>::empty());
        assert(digits_text(more, k) =~= digit_text(d as int));
        assert(digit_text(d as int) + Seq::<char>::empty() =~= digit_text(d as int));
    }
}

/// Appends the decimal text of `x`.
pub fn append_decimal(out: &mut String, x: i64)
    ensures
        final(out)@ == old(out)@ + decimal_text(x as int),
{
    if x < 0 {
        out.append("-");
        let magnitude: u64 = (-(x as i128)) as u64;
        append_natural(out, magnitude);
        assert(out@ =~= old(out)@ + decimal_text(x as int));
    } else {
        append_natural(out, x as u64);
    }
}

/// The decimal text of `x`.
pub fn decimal(x: i64) -> (r: String)
    ensures
        r@ == decimal_text(x as int),
{
    let mut out: String = String::new();
    append_decimal(&mut out, x);
    assert(out@ =~= decimal_text(x as int));
    out
}

/// `k` spaces.
pub open spec fn spaces(k: int) -> Seq<char>
    decreases k,
{
    if k <= 0 {
        Seq::empty()
    } else {
        spaces(k - 1) + " "@
    }
}

/// Appends `k` spaces.
pub fn append_spaces(out: &mut String, k: usize)
    ensures
        final(out)@ == old(out)@ + spaces(k as int),
{
    let mut i: usize = 0;
    assert(out@ =~= old(out)@ + spaces(0));
    while i < k
        invariant
            i <= k,
            out@ == old(out)@ + spaces(i as int),
        decreases k - i,
    {
        out.append(" ");
        assert(out@ =~= old(out)@ + spaces(i + 1));
        i += 1;
    }
}

/// The text in a field of `width` characters, with `left` of the missing
/// characters as spaces in front of it and the rest behind it; a text
/// that is longer is left as it is.
pub open spec fn padded(text: Seq<char>, width: int, left: int) -> Seq<char> {
    if text.len() >= width {
        text
    } else {
        spaces(left) + text + spaces(width - text.len() - left)
    }
}

/// The text in the middle of a field of `width` characters; of an odd
/// number of missing characters the greater part is behind it.
pub open spec fn centered(text: Seq<char>, width: int) -> Seq<char> {
    padded(text, width, (width - text.len()) / 2)
}

/// The text at the right of a field of `width` characters.
pub open spec fn right_aligned(text: Seq<char>, width: int) -> Seq<char> {
    padded(text, width, width - text.len())
}

/// The text at the left of a field of `width` characters.
pub open spec fn left_aligned(text: Seq<char>, width: int) -> Seq<char> {
    padded(text, width, 0)
}

/// Appends `text` in a field of `width` characters with `left` of the
/// missing characters in front of it.
fn append_padded(out: &mut String, text: &str, width: usize, left: usize)
    requires
        text@.len() < width ==> left <= width - text@.len(),
    ensures
        final(out)@ == old(out)@ + padded(text@, width as int, left as int),
{
    let len: usize = text.unicode_len();
    if len >= width {
        out.append(text);
    } else {
        append_spaces(out, left);
        out.append(text);
        append_spaces(out, width - len - left);
        assert(out@ =~= old(out)@ + padded(text@, width as int, left as int));
    }
}

/// Appends `text` in the middle of a field of `width` characters.
pub fn append_centered(out: &mut String, text: &str, width: usize)
    ensures
        final(out)@ == old(out)@ + centered(text@, width as int),
{
    let len: usize = text.unicode_len();
    let left: usize = if len < width {
        (width - len) / 2
    } else {
        0
    };
    append_padded(out, text, width, left);
}

/// Appends `text` at the right of a field of `width` characters.
pub fn append_right(out: &mut String, text: &str, width: usize)
    ensures
        final(out)@ == old(out)@ + right_aligned(text@, width as int),
{
    let len: usize = text.unicode_len();
    let left: usize = if len < width {
        width - len
    } else {
        0
    };
    append_padded(out, text, width, left);
}

/// Appends `text` at the left of a field of `width` characters.
pub fn append_left(out: &mut String, text: &str, width: usize)
    ensures
        final(out)@ == old(out)@ + left_aligned(text@, width as int),
{
    append_padded(out, text, width, 0);
}

} // verus!
