use vstd::prelude::*;

verus! {

/// Whether `c` has the Unicode White_Space property.
pub open spec fn is_white_space(c: char) -> bool {
    let v = c as u32;
    ||| 0x09 <= v <= 0x0d
    ||| v == 0x20
    ||| v == 0x85
    ||| v == 0xa0
    ||| v == 0x1680
    ||| 0x2000 <= v <= 0x200a
    ||| v == 0x2028
    ||| v == 0x2029
    ||| v == 0x202f
    ||| v == 0x205f
    ||| v == 0x3000
}

/// Whether the text is empty once leading and trailing white space is removed,
/// that is, whether every character of it is white space.
pub open spec fn is_blank_text(s: Seq<char>) -> bool {
    forall|i: int| 0 <= i < s.len() ==> is_white_space(#[trigger] s[i])
}

/// Whether `c` has the Unicode White_Space property.
pub fn white_space(c: char) -> (res: bool)
    ensures
        res == is_white_space(c),
{
    let v = c as u32;
    (0x09 <= v && v <= 0x0d) || v == 0x20 || v == 0x85 || v == 0xa0 || v == 0x1680 || (0x2000 <= v
        && v <= 0x200a) || v == 0x2028 || v == 0x2029 || v == 0x202f || v == 0x205f || v == 0x3000
}

/// Whether `s` holds nothing but white space.
pub fn is_blank(s: &str) -> (res: bool)
    ensures
        res == is_blank_text(s@),
{
    let len = s.unicode_len();
    let mut i: usize = 0;
    while i < len
        invariant
            len == s@.len(),
            0 <= i <= len,
            forall|k: int| 0 <= k < i ==> is_white_space(#[trigger] s@[k]),
        decreases len - i,
    {
        if !white_space(s.get_char(i)) {
            return false;
        }
        i = i + 1;
    }
    true
}

/// The ASCII lower-case form of a character code; other codes are unchanged.
pub open spec fn ascii_lower(v: u32) -> u32 {
    if 65 <= v <= 90 {
        (v + 32) as u32
    } else {
        v
    }
}

/// The character codes of the word `true`.
pub open spec fn true_word() -> Seq<u32> {
    seq![116u32, 114u32, 117u32, 101u32]
}

/// Whether a debug setting's value turns debug output on: it is `1`, or
/// `true` in any mix of ASCII upper and lower case.
pub open spec fn enables_debug(value: Seq<char>) -> bool {
    value == seq!['1'] || (value.len() == 4 && forall|i: int|
        0 <= i < 4 ==> ascii_lower(#[trigger] value[i] as u32) == true_word()[i])
}

/// Whether a debug setting's value turns debug output on.
pub fn debug_value_enabled(value: &str) -> (res: bool)
    ensures
        res == enables_debug(value@),
{
    let len = value.unicode_len();
    if len == 1 && value.get_char(0) == '1' {
        proof {
            assert(value@ =~= seq!['1']);
        }
        return true;
    }
    if len != 4 {
        return false;
    }
    let word: [u32; 4] = [116, 114, 117, 101];
    let mut i: usize = 0;
    while i < 4
        invariant
            len == value@.len() == 4,
            0 <= i <= 4,
            word@ == true_word(),
            value@ != seq!['1'],
            forall|k: int| 0 <= k < i ==> ascii_lower(#[trigger] value@[k] as u32) == true_word()[k],
        decreases 4 - i,
    {
        let v = value.get_char(i) as u32;
        let lower = if 65 <= v && v <= 90 {
            v + 32
        } else {
            v
        };
        if lower != word[i] {
            return false;
        }
        i = i + 1;
    }
    true
}

} // verus!
