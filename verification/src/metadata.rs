//! What the path of an option says about it: the trait that it belongs to,
//! the value that it stands for, and whether its file is an image.
//!
//! The trait is the name of the layer folder, the third piece of the path;
//! the value is the name of the file. Both are shown without weight markers
//! and without the extension of the file.

use crate::text::{chars_of, piece_bounds, pieces, ranges_of, split_pieces, texts};
use crate::weights::is_digit;
use vstd::prelude::*;
use vstd::string::{StrSliceExecFns, StringExecFns};

verus! {

/// The trait and the value of an option, as they are shown.
#[derive(Debug)]
pub struct Attribute {
    pub trait_type: String,
    pub value: String,
}

/// Whether `c` is a letter or digit of ASCII, or an underscore.
pub open spec fn is_word_char(c: char) -> bool {
    ('a' <= c <= 'z') || ('A' <= c <= 'Z') || ('0' <= c <= '9') || c == '_'
}

/// Whether `s` from `from` on holds word characters only.
pub open spec fn all_word_chars(s: Seq<char>, from: int) -> bool {
    forall|k: int| from <= k < s.len() ==> is_word_char(#[trigger] s[k])
}

/// `s` from position `i` on, without its weight markers and without an
/// extension at its end; `in_marker` says that the characters just in front
/// of `i` are a `#` and digits.
///
/// Read from the left: a `#` with a digit behind it goes, together with the
/// digits that follow it; a `.` with nothing but word characters behind it,
/// and at least one, ends the name; every other character stays.
pub open spec fn cleaned_from(s: Seq<char>, i: int, in_marker: bool) -> Seq<char>
    decreases s.len() - i,
{
    if i < 0 || i >= s.len() {
        Seq::empty()
    } else if in_marker && is_digit(s[i]) {
        cleaned_from(s, i + 1, true)
    } else if s[i] == '#' && i + 1 < s.len() && is_digit(s[i + 1]) {
        cleaned_from(s, i + 1, true)
    } else if s[i] == '.' && i + 1 < s.len() && all_word_chars(s, i + 1) {
        Seq::empty()
    } else {
        seq![s[i]] + cleaned_from(s, i + 1, false)
    }
}

/// A name without its weight markers and without an extension at its end.
pub open spec fn cleaned(s: Seq<char>) -> Seq<char> {
    cleaned_from(s, 0, false)
}

/// The trait and the value that the path of an option shows, of a path with
/// at least three pieces: the third piece and the last one, cleaned.
pub open spec fn attribute_of(path: Seq<char>) -> Option<(Seq<char>, Seq<char>)> {
    let parts = pieces(path);
    if parts.len() < 3 {
        None
    } else {
        Some((cleaned(parts[2]), cleaned(parts.last())))
    }
}

/// Position of the last `c` in front of `upto`, or -1.
pub open spec fn last_before(s: Seq<char>, c: char, upto: int) -> int
    decreases upto,
{
    if upto <= 0 {
        -1
    } else if s[upto - 1] == c {
        upto - 1
    } else {
        last_before(s, c, upto - 1)
    }
}

/// `c` in lower case, where it is an upper-case letter of ASCII.
pub open spec fn ascii_lower(c: char) -> char {
    if 'A' <= c <= 'Z' {
        ((c as u8) + 32) as char
    } else {
        c
    }
}

/// The extension of the file of a path: what follows the last `.` of the
/// file's name, unless the name begins with that `.` or holds none.
pub open spec fn extension_of(path: Seq<char>) -> Option<Seq<char>> {
    let file = pieces(path).last();
    let dot = last_before(file, '.', file.len() as int);
    if dot <= 0 {
        None
    } else {
        Some(file.skip(dot + 1))
    }
}

/// Whether the file of a path has the extension of an image, `png`, in
/// upper or lower case.
pub open spec fn is_image_path(path: Seq<char>) -> bool {
    match extension_of(path) {
        Some(extension) => extension.map_values(|c: char| ascii_lower(c)) == seq!['p', 'n', 'g'],
        None => false,
    }
}

/// Whether `s` from `from` on holds word characters only.
fn only_word_chars(s: &Vec<char>, from: usize) -> (yes: bool)
    requires
        from <= s.len(),
    ensures
        yes == all_word_chars(s@, from as int),
{
    let mut k: usize = from;
    while k < s.len()
        invariant
            from <= k <= s.len(),
            forall|j: int| from <= j < k ==> is_word_char(#[trigger] s@[j]),
        decreases s.len() - k,
    {
        let c = s[k];
        let word = (c >= 'a' && c <= 'z') || (c >= 'A' && c <= 'Z') || (c >= '0' && c <= '9') || c
            == '_';
        if !word {
            return false;
        }
        k += 1;
    }
    true
}

/// A name without its weight markers and without an extension at its end.
pub fn clean_name(name: &str) -> (out: String)
    ensures
        out@ == cleaned(name@),
{
    let s = chars_of(name);
    let mut out = String::from_str("");
    proof {
        reveal_strlit("");
    }
    let mut in_marker: bool = false;
    let mut i: usize = 0;
    while i < s.len()
        invariant
            i <= s.len(),
            s@ == name@,
            out@ + cleaned_from(s@, i as int, in_marker) == cleaned(s@),
        decreases s.len() - i,
    {
        let c = s[i];
        if in_marker && c >= '0' && c <= '9' {
            i += 1;
        } else if c == '#' && i + 1 < s.len() && s[i + 1] >= '0' && s[i + 1] <= '9' {
            in_marker = true;
            i += 1;
        } else if c == '.' && i + 1 < s.len() && only_word_chars(&s, i + 1) {
            return out;
        } else {
            let ghost before = out@;
            out.append(name.substring_char(i, i + 1));
            proof {
                assert(before + seq![s@[i as int]] + cleaned_from(s@, i + 1, false) =~= before + (
                seq![s@[i as int]] + cleaned_from(s@, i + 1, false)));
            }
            in_marker = false;
            i += 1;
        }
    }
    out
}

/// The trait and the value that the path of an option shows; `None` for a
/// path of fewer than three pieces.
pub fn attribute_for_path(path: &str) -> (attribute: Option<Attribute>)
    ensures
        match attribute_of(path@) {
            Some((trait_type, value)) => attribute is Some && attribute->0.trait_type@
                == trait_type && attribute->0.value@ == value,
            None => attribute is None,
        },
{
    let s = chars_of(path);
    let bounds = piece_bounds(&s);
    if bounds.len() < 3 {
        return None;
    }
    let folder = bounds[2];
    let file = bounds[bounds.len() - 1];
    let trait_type = clean_name(path.substring_char(folder.0, folder.1));
    let value = clean_name(path.substring_char(file.0, file.1));
    Some(Attribute { trait_type, value })
}

/// Whether the file of a path is an image by its extension.
pub fn has_image_extension(path: &str) -> (yes: bool)
    ensures
        yes == is_image_path(path@),
{
    let s = chars_of(path);
    let parts = split_pieces(&s);
    let file = &parts[parts.len() - 1];
    let mut dot: usize = file.len();
    while dot > 0 && file[dot - 1] != '.'
        invariant
            dot <= file.len(),
            last_before(file@, '.', file.len() as int) == last_before(file@, '.', dot as int),
        decreases dot,
    {
        dot -= 1;
    }
    // `dot` is one past the last `.`, or 0 where there is none
    if dot <= 1 {
        return false;
    }
    let ghost extension = file@.skip(dot as int);
    let ghost lowered = extension.map_values(|c: char| ascii_lower(c));
    if file.len() - dot != 3 {
        assert(lowered.len() != 3);
        return false;
    }
    let first = file[dot];
    let second = file[dot + 1];
    let third = file[dot + 2];
    let yes = (first == 'p' || first == 'P') && (second == 'n' || second == 'N') && (third == 'g'
        || third == 'G');
    proof {
        if yes {
            assert(lowered =~= seq!['p', 'n', 'g']);
        }
    }
    yes
}

} // verus!
