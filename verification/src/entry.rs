use vstd::prelude::*;

verus! {

/// One dictionary record: a romanized form (a compact phonetic spelling)
/// and a free-form English gloss.
#[derive(Debug)]
pub struct TaigiEntry {
    pub poj_unicode: String,
    pub english: String,
}

/// The mathematical content of an entry: both fields as character
/// sequences.
pub ghost struct EntryView {
    pub poj: Seq<char>,
    pub english: Seq<char>,
}

impl View for TaigiEntry {
    type V = EntryView;

    open spec fn view(&self) -> EntryView {
        EntryView { poj: self.poj_unicode@, english: self.english@ }
    }
}

/// Whether `c` is a Unicode whitespace character (the White_Space set).
pub open spec fn is_ws_char(c: char) -> bool {
    let u = c as u32;
    u == 0x20 || (0x09 <= u && u <= 0x0D) || u == 0x85 || u == 0xA0 || u == 0x1680 || (0x2000
        <= u && u <= 0x200A) || u == 0x2028 || u == 0x2029 || u == 0x202F || u == 0x205F || u
        == 0x3000
}

/// Whether the sequence holds any whitespace character.
pub open spec fn has_ws(s: Seq<char>) -> bool {
    exists|i: int| 0 <= i < s.len() && is_ws_char(s[i])
}

/// Decides `is_ws_char` for a single character.
pub fn is_whitespace_char(c: char) -> (b: bool)
    ensures
        b == is_ws_char(c),
{
    let u: u32 = c as u32;
    u == 0x20 || (0x09 <= u && u <= 0x0D) || u == 0x85 || u == 0xA0 || u == 0x1680 || (0x2000
        <= u && u <= 0x200A) || u == 0x2028 || u == 0x2029 || u == 0x202F || u == 0x205F || u
        == 0x3000
}

/// Decides whether the string holds any whitespace character.
pub fn contains_whitespace(s: &str) -> (b: bool)
    ensures
        b == has_ws(s@),
{
    let len = s.unicode_len();
    let mut i: usize = 0;
    while i < len
        invariant
            len == s@.len(),
            0 <= i <= len,
            forall|j: int| 0 <= j < i ==> !is_ws_char(s@[j]),
        decreases len - i,
    {
        let c = s.get_char(i);
        if is_whitespace_char(c) {
            return true;
        }
        i = i + 1;
    }
    false
}

impl TaigiEntry {
    /// Builds an entry from its two fields.
    pub fn new(poj_unicode: String, english: String) -> (r: TaigiEntry)
        ensures
            r@.poj == poj_unicode@,
            r@.english == english@,
    {
        TaigiEntry { poj_unicode, english }
    }

    /// The romanized form alone, as the entry renders itself for output.
    pub fn romanized(&self) -> (r: &str)
        ensures
            r@ == self@.poj,
    {
        self.poj_unicode.as_str()
    }
}

} // verus!
