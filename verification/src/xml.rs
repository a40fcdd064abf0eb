//! Reading an instance from its document.

use vstd::prelude::*;
use vstd::string::StringExecFns;
use vstd::string::StrSliceExecFns;

verus! {

/// A node of a document: the number of nodes above it, whether it is an
/// element, its name, its attributes as names and values, and its text.
#[derive(Debug)]
pub struct XmlNode {
    pub depth: usize,
    pub is_element: bool,
    pub name: String,
    pub attributes: Vec<(String, String)>,
    pub text: Option<String>,
}

/// The mathematical content of an `XmlNode`.
pub struct XmlNodeView {
    pub depth: usize,
    pub is_element: bool,
    pub name: Seq<char>,
    pub attributes: Seq<(Seq<char>, Seq<char>)>,
    pub text: Option<Seq<char>>,
}

/// The content of a list of attributes.
pub open spec fn attributes_view(attributes: Seq<(String, String)>) -> Seq<(Seq<char>, Seq<char>)> {
    Seq::new(attributes.len(), |i: int| (attributes[i].0@, attributes[i].1@))
}

pub open spec fn text_view(text: Option<String>) -> Option<Seq<char>> {
    match text {
        Some(t) => Some(t@),
        None => None,
    }
}

impl View for XmlNode {
    type V = XmlNodeView;

    open spec fn view(&self) -> XmlNodeView {
        XmlNodeView {
            depth: self.depth,
            is_element: self.is_element,
            name: self.name@,
            attributes: attributes_view(self.attributes@),
            text: text_view(self.text),
        }
    }
}

/// The content of the nodes of a document, if there is one.
pub open spec fn nodes_view(nodes: Option<Vec<XmlNode>>) -> Option<Seq<XmlNodeView>> {
    match nodes {
        Some(v) => Some(Seq::new(v@.len(), |i: int| v@[i]@)),
        None => None,
    }
}

/// The nodes that the document `text` has, in the order of the document,
/// or `None` where the text is no document.
pub uninterp spec fn xml_nodes(text: Seq<char>) -> Option<Seq<XmlNodeView>>;

/// Parses `text` with `roxmltree::Document::parse` and lists the nodes of
/// the document in the order of `descendants`, the root node first: for
/// each the number of its ancestors, itself counted; whether it is an
/// element; the local part of its tag name; its attributes with the local
/// parts of their names; and its text. Nothing is proved of the parser:
/// its result is only given the name `xml_nodes`.
#[verifier::external_body]
pub(crate) fn parse_xml(text: &str) -> (r: Option<Vec<XmlNode>>)
    ensures
        nodes_view(r) == xml_nodes(text@),
{
    let doc = roxmltree::Document::parse(text).ok()?;
    Some(doc.descendants().map(|n| XmlNode {
        depth: n.ancestors().count(),
        is_element: n.is_element(),
        name: n.tag_name().name().to_string(),
        attributes: n.attributes().map(|a| (a.name().to_string(), a.value().to_string())).collect(),
        text: n.text().map(|t| t.to_string()),
    }).collect())
}

/// Whether the text is the word.
pub fn is_word(s: &String, word: &str) -> (r: bool)
    ensures
        r == (s@ == word@),
{
    let w: String = String::from_str(word);
    *s == w
}

/// The value of a decimal digit, if the character is one.
pub open spec fn digit_value(c: char) -> Option<int> {
    if '0' <= c <= '9' {
        Some(c as int - '0' as int)
    } else {
        None
    }
}

fn digit_of(c: char) -> (r: Option<u8>)
    ensures
        match digit_value(c) {
            Some(d) => r == Some(d as u8) && 0 <= d <= 9,
            None => r is None,
        },
{
    if c >= '0' && c <= '9' {
        Some((c as u32 - '0' as u32) as u8)
    } else {
        None
    }
}

/// The number that the first `k` characters are as decimal digits, if
/// they are all digits.
pub open spec fn digits_value(s: Seq<char>, k: int) -> Option<int>
    decreases k,
{
    if k <= 0 {
        Some(0)
    } else {
        match (digits_value(s, k - 1), digit_value(s[k - 1])) {
            (Some(v), Some(d)) => Some(10 * v + d),
            _ => None,
        }
    }
}

/// The number that the text is: digits, with a sign in front of them if
/// there is one. A minus sign is taken only where `signed`.
pub open spec fn number_of(s: Seq<char>, signed: bool) -> Option<int> {
    if s.len() == 0 {
        None
    } else if s[0] == '-' {
        if signed && s.len() > 1 {
            match digits_value(s.skip(1), s.len() - 1) {
                Some(v) => Some(-v),
                None => None,
            }
        } else {
            None
        }
    } else if s[0] == '+' {
        if s.len() > 1 {
            digits_value(s.skip(1), s.len() - 1)
        } else {
            None
        }
    } else {
        digits_value(s, s.len() as int)
    }
}

/// The number, if it lies between `lo` and `hi`.
pub open spec fn within(x: Option<int>, lo: int, hi: int) -> Option<int> {
    match x {
        Some(v) => if lo <= v <= hi {
            Some(v)
        } else {
            None
        },
        None => None,
    }
}

proof fn lemma_digits_nonnegative(s: Seq<char>, k: int)
    ensures
        digits_value(s, k) matches Some(v) ==> v >= 0,
    decreases k,
{
    if k > 0 {
        lemma_digits_nonnegative(s, k - 1);
    }
}

proof fn lemma_digits_grow(s: Seq<char>, j: int, k: int)
    requires
        0 <= j <= k,
        digits_value(s, k) is Some,
    ensures
        digits_value(s, j) is Some,
        0 <= digits_value(s, j).unwrap() <= digits_value(s, k).unwrap(),
    decreases k,
{
    lemma_digits_nonnegative(s, j);
    lemma_digits_nonnegative(s, k);
    if j < k {
        lemma_digits_nonnegative(s, k - 1);
        lemma_digits_grow(s, j, k - 1);
    }
}

/// The number that the text is, if it lies between `lo` and `hi`.
#[verifier::rlimit(40)]
fn parse_number(s: &str, signed: bool, lo: i128, hi: i128) -> (r: Option<i128>)
    requires
        -0x1_0000_0000_0000_0000 <= lo <= 0 <= hi <= 0x1_0000_0000_0000_0000,
    ensures
        match within(number_of(s@, signed), lo as int, hi as int) {
            Some(v) => r == Some(v as i128),
            None => r is None,
        },
{
    let len: usize = s.unicode_len();
    if len == 0 {
        return None;
    }
    let first: char = s.get_char(0);
    let negative: bool = first == '-';
    if negative && !signed {
        return None;
    }
    let start: usize = if first == '-' || first == '+' {
        1
    } else {
        0
    };
    if start == 1 && len == 1 {
        return None;
    }
    let ghost body = if start == 1 {
        s@.skip(1)
    } else {
        s@
    };
    let mut acc: i128 = 0;
    let mut i: usize = start;
    while i < len
        invariant
            start <= i <= len,
            len == s@.len(),
            body.len() == len - start,
            forall|j: int| 0 <= j < body.len() ==> body[j] == s@[j + start],
            digits_value(body, i - start) == Some(acc as int),
            0 <= acc <= 0x1_0000_0000_0000_0000,
            -0x1_0000_0000_0000_0000 <= lo <= 0 <= hi <= 0x1_0000_0000_0000_0000,
            number_of(s@, signed) == (match digits_value(body, body.len() as int) {
                Some(v) => Some(
                    if negative {
                        -v
                    } else {
                        v
                    },
                ),
                None => None::<int>,
            }),
        decreases len - i,
    {
        let c: char = s.get_char(i);
        match digit_of(c) {
            None => {
                proof {
                    assert(body[i - start] == s@[i as int]);
                    assert(digits_value(body, i - start + 1) is None);
                    if digits_value(body, body.len() as int) is Some {
                        lemma_digits_grow(body, i - start + 1, body.len() as int);
                    }
                }
                return None;
            },
            Some(d) => {
                assert(body[i - start] == s@[i as int]);
                let next: i128 = acc * 10 + d as i128;
                if next > 0x1_0000_0000_0000_0000 {
                    proof {
                        if digits_value(body, body.len() as int) is Some {
                            lemma_digits_grow(body, i - start + 1, body.len() as int);
                        }
                    }
                    return None;
                }
                acc = next;
            },
        }
        i += 1;
    }
    let value: i128 = if negative {
        -acc
    } else {
        acc
    };
    if value < lo || value > hi {
        None
    } else {
        Some(value)
    }
}

/// The text as a number of the type `i64`.
pub fn parse_i64(s: &str) -> (r: Option<i64>)
    ensures
        match within(number_of(s@, true), i64::MIN as int, i64::MAX as int) {
            Some(v) => r == Some(v as i64),
            None => r is None,
        },
{
    match parse_number(s, true, i64::MIN as i128, i64::MAX as i128) {
        Some(v) => Some(v as i64),
        None => None,
    }
}

/// The text as a number of the type `i32`.
pub fn parse_i32(s: &str) -> (r: Option<i32>)
    ensures
        match within(number_of(s@, true), i32::MIN as int, i32::MAX as int) {
            Some(v) => r == Some(v as i32),
            None => r is None,
        },
{
    match parse_number(s, true, i32::MIN as i128, i32::MAX as i128) {
        Some(v) => Some(v as i32),
        None => None,
    }
}

/// The text as a number of the type `u32`.
pub fn parse_u32(s: &str) -> (r: Option<u32>)
    ensures
        match within(number_of(s@, false), 0, u32::MAX as int) {
            Some(v) => r == Some(v as u32),
            None => r is None,
        },
{
    match parse_number(s, false, 0, u32::MAX as i128) {
        Some(v) => Some(v as u32),
        None => None,
    }
}

/// The position of the first `sep` from `start` on, or the length.
pub open spec fn segment_end(s: Seq<char>, sep: char, start: int) -> int
    decreases s.len() - start,
{
    if start >= s.len() || s[start] == sep {
        start
    } else {
        segment_end(s, sep, start + 1)
    }
}

/// The parts of the text from `start` on between one `sep` and the next.
pub open spec fn segments_from(s: Seq<char>, sep: char, start: int) -> Seq<Seq<char>>
    decreases s.len() - start,
{
    let end = segment_end(s, sep, start);
    if 0 <= start <= end < s.len() {
        seq![s.subrange(start, end)] + segments_from(s, sep, end + 1)
    } else {
        seq![s.subrange(start, s.len() as int)]
    }
}

/// The parts of the text between one `sep` and the next; a text without
/// `sep` is one part.
pub open spec fn segments(s: Seq<char>, sep: char) -> Seq<Seq<char>> {
    segments_from(s, sep, 0)
}

/// The content of a list of texts.
pub open spec fn texts_view(texts: Seq<String>) -> Seq<Seq<char>> {
    Seq::new(texts.len(), |i: int| texts[i]@)
}

/// The parts of the text between one `sep` and the next.
#[verifier::rlimit(40)]
pub fn split_text(s: &str, sep: char) -> (parts: Vec<String>)
    ensures
        texts_view(parts@) == segments(s@, sep),
{
    let len: usize = s.unicode_len();
    let mut parts: Vec<String> = Vec::new();
    let mut start: usize = 0;
    let mut done: bool = false;
    assert(texts_view(parts@) =~= Seq::<Seq<char>>::empty());
    while !done
        invariant
            len == s@.len(),
            start <= len,
            !done ==> texts_view(parts@) + segments_from(s@, sep, start as int) == segments(s@, sep),
            done ==> texts_view(parts@) == segments(s@, sep),
        decreases
                len - start + if done {
                    0int
                } else {
                    1int
                },
    {
        let mut end: usize = start;
        while end < len && s.get_char(end) != sep
            invariant
                len == s@.len(),
                start <= end <= len,
                segment_end(s@, sep, end as int) == segment_end(s@, sep, start as int),
            decreases len - end,
        {
            end += 1;
        }
        let ghost before = texts_view(parts@);
        let part: String = String::from_str(s.substring_char(start, end));
        parts.push(part);
        assert(texts_view(parts@) =~= before.push(s@.subrange(start as int, end as int)));
        if end < len {
            assert(texts_view(parts@) + segments_from(s@, sep, end + 1) =~= before + segments_from(
                s@,
                sep,
                start as int,
            ));
            start = end + 1;
        } else {
            assert(texts_view(parts@) =~= before + segments_from(s@, sep, start as int));
            done = true;
        }
    }
    parts
}

/// The numbers that the first `k` texts are, or `None` where one of them
/// is no number of the type `i64`.
pub open spec fn numbers_of(texts: Seq<Seq<char>>, k: int) -> Option<Seq<i64>>
    decreases k,
{
    if k <= 0 {
        Some(Seq::empty())
    } else {
        match (
            numbers_of(texts, k - 1),
            within(number_of(texts[k - 1], true), i64::MIN as int, i64::MAX as int),
        ) {
            (Some(v), Some(x)) => Some(v.push(x as i64)),
            _ => None,
        }
    }
}

proof fn lemma_numbers_none(texts: Seq<Seq<char>>, k: int, n: int)
    requires
        0 <= k <= n,
        numbers_of(texts, k) is None,
    ensures
        numbers_of(texts, n) is None,
    decreases n - k,
{
    if k < n {
        lemma_numbers_none(texts, k, n - 1);
    }
}

/// The identifiers that a text lists: numbers with `;` between them.
pub open spec fn ids_of(s: Seq<char>) -> Option<Seq<i64>> {
    numbers_of(segments(s, ';'), segments(s, ';').len() as int)
}

/// The identifiers that the text lists.
pub fn parse_ids(s: &str) -> (r: Option<Vec<i64>>)
    ensures
        match ids_of(s@) {
            Some(ids) => r matches Some(v) && v@ == ids,
            None => r is None,
        },
{
    let parts: Vec<String> = split_text(s, ';');
    let ghost texts = texts_view(parts@);
    let mut out: Vec<i64> = Vec::new();
    let mut k: usize = 0;
    while k < parts.len()
        invariant
            k <= parts.len(),
            texts == texts_view(parts@),
            texts == segments(s@, ';'),
            numbers_of(texts, k as int) == Some(out@),
        decreases parts.len() - k,
    {
        assert(texts[k as int] == parts@[k as int]@);
        match parse_i64(parts[k].as_str()) {
            Some(x) => {
                out.push(x);
            },
            None => {
                proof {
                    lemma_numbers_none(texts, k + 1, texts.len() as int);
                }
                return None;
            },
        }
        k += 1;
    }
    Some(out)
}

/// The pair of teams that a text names: two numbers with `,` between them.
pub open spec fn pair_of(s: Seq<char>) -> Option<(i64, i64)> {
    let parts = segments(s, ',');
    match numbers_of(parts, parts.len() as int) {
        Some(v) => if v.len() == 2 {
            Some((v[0], v[1]))
        } else {
            None
        },
        None => None,
    }
}

/// The pairs that the first `k` texts name; a text that is empty names
/// none. `None` where a text that is not empty names no pair.
pub open spec fn pairs_of(texts: Seq<Seq<char>>, k: int) -> Option<Seq<(i64, i64)>>
    decreases k,
{
    if k <= 0 {
        Some(Seq::empty())
    } else {
        match pairs_of(texts, k - 1) {
            None => None,
            Some(v) => if texts[k - 1].len() == 0 {
                Some(v)
            } else {
                match pair_of(texts[k - 1]) {
                    Some(p) => Some(v.push(p)),
                    None => None,
                }
            },
        }
    }
}

proof fn lemma_pairs_none(texts: Seq<Seq<char>>, k: int, n: int)
    requires
        0 <= k <= n,
        pairs_of(texts, k) is None,
    ensures
        pairs_of(texts, n) is None,
    decreases n - k,
{
    if k < n {
        lemma_pairs_none(texts, k, n - 1);
    }
}

/// The games that a text lists: pairs with `;` between or behind them.
pub open spec fn meetings_of(s: Seq<char>) -> Option<Seq<(i64, i64)>> {
    pairs_of(segments(s, ';'), segments(s, ';').len() as int)
}

/// The games that the text lists.
#[verifier::rlimit(40)]
pub fn parse_meetings(s: &str) -> (r: Option<Vec<(i64, i64)>>)
    ensures
        match meetings_of(s@) {
            Some(pairs) => r matches Some(v) && v@ == pairs,
            None => r is None,
        },
{
    let parts: Vec<String> = split_text(s, ';');
    let ghost texts = texts_view(parts@);
    let mut out: Vec<(i64, i64)> = Vec::new();
    let mut k: usize = 0;
    while k < parts.len()
        invariant
            k <= parts.len(),
            texts == texts_view(parts@),
            texts == segments(s@, ';'),
            pairs_of(texts, k as int) == Some(out@),
        decreases parts.len() - k,
    {
        assert(texts[k as int] == parts@[k as int]@);
        let part: &str = parts[k].as_str();
        if part.unicode_len() != 0 {
            let pair: Option<Vec<i64>> = {
                let halves: Vec<String> = split_text(part, ',');
                let ghost hv = texts_view(halves@);
                let mut nums: Vec<i64> = Vec::new();
                let mut j: usize = 0;
                let mut ok: bool = true;
                while j < halves.len() && ok
                    invariant
                        j <= halves.len(),
                        hv == texts_view(halves@),
                        ok ==> numbers_of(hv, j as int) == Some(nums@),
                        !ok ==> numbers_of(hv, hv.len() as int) is None,
                    decreases halves.len() - j,
                {
                    assert(hv[j as int] == halves@[j as int]@);
                    match parse_i64(halves[j].as_str()) {
                        Some(x) => {
                            nums.push(x);
                        },
                        None => {
                            proof {
                                lemma_numbers_none(hv, j + 1, hv.len() as int);
                            }
                            ok = false;
                        },
                    }
                    j += 1;
                }
                if ok {
                    Some(nums)
                } else {
                    None
                }
            };
            match pair {
                Some(nums) => {
                    if nums.len() != 2 {
                        proof {
                            lemma_pairs_none(texts, k + 1, texts.len() as int);
                        }
                        return None;
                    }
                    out.push((nums[0], nums[1]));
                },
                None => {
                    proof {
                        lemma_pairs_none(texts, k + 1, texts.len() as int);
                    }
                    return None;
                },
            }
        }
        k += 1;
    }
    Some(out)
}

} // verus!
