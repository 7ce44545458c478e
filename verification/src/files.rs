use vstd::prelude::*;
use crate::text::{chars_equal, chars_of, trim_chars, trimmed};

verus! {

/// The lowercase form of an ASCII capital letter; every other character
/// itself.
pub open spec fn ascii_lower(c: char) -> char {
    if 'A' <= c && c <= 'Z' {
        ((c as u8) + 32) as char
    } else {
        c
    }
}

/// `s` with its ASCII capital letters in lowercase.
pub open spec fn ascii_lowered(s: Seq<char>) -> Seq<char> {
    s.map_values(|c: char| ascii_lower(c))
}

/// The extension is one that image files carry, in capital or small letters.
pub open spec fn image_extension(ext: Option<Seq<char>>) -> bool {
    match ext {
        Some(e) => {
            let l = ascii_lowered(e);
            l == "jpg"@ || l == "jpeg"@ || l == "png"@ || l == "heic"@
        },
        None => false,
    }
}

/// A setting that switches something on: `1`, `true`, `yes` or `on`, in
/// capital or small letters, with or without white space around it.
pub open spec fn switched_on(value: Option<Seq<char>>) -> bool {
    match value {
        Some(v) => {
            let l = ascii_lowered(trimmed(v));
            l == "1"@ || l == "true"@ || l == "yes"@ || l == "on"@
        },
        None => false,
    }
}

pub fn lower_char(c: char) -> (r: char)
    ensures
        r == ascii_lower(c),
{
    if 'A' <= c && c <= 'Z' {
        ((c as u8) + 32) as char
    } else {
        c
    }
}

/// `s` with its ASCII capital letters in lowercase.
pub fn lower_chars(s: &Vec<char>) -> (r: Vec<char>)
    ensures
        r@ == ascii_lowered(s@),
{
    let mut out: Vec<char> = Vec::new();
    let mut i: usize = 0;
    while i < s.len()
        invariant
            i <= s.len(),
            out.len() == i,
            forall|j: int| 0 <= j < i ==> out[j] == ascii_lower(s[j]),
        decreases s.len() - i,
    {
        out.push(lower_char(s[i]));
        i += 1;
    }
    assert(out@ =~= ascii_lowered(s@));
    out
}

/// Whether a file with this extension is an image.
pub fn is_image(extension: Option<&str>) -> (r: bool)
    ensures
        r == image_extension(
            match extension {
                Some(e) => Some(e@),
                None => None,
            },
        ),
{
    match extension {
        None => false,
        Some(e) => {
            let l = lower_chars(&chars_of(e));
            chars_equal(&l, &chars_of("jpg")) || chars_equal(&l, &chars_of("jpeg")) || chars_equal(
                &l,
                &chars_of("png"),
            ) || chars_equal(&l, &chars_of("heic"))
        },
    }
}

/// Whether the setting asks that photos already grouped be classified again.
pub fn force_reclassify_enabled(value: Option<&str>) -> (r: bool)
    ensures
        r == switched_on(
            match value {
                Some(v) => Some(v@),
                None => None,
            },
        ),
{
    match value {
        None => false,
        Some(v) => {
            let l = lower_chars(&trim_chars(&chars_of(v)));
            chars_equal(&l, &chars_of("1")) || chars_equal(&l, &chars_of("true")) || chars_equal(
                &l,
                &chars_of("yes"),
            ) || chars_equal(&l, &chars_of("on"))
        },
    }
}

} // verus!
