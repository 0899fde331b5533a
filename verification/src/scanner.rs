//! Pure decision logic of the image scanner: magic-number format
//! validation, extension filtering, ignore rules and tilde
//! expansion. Directory traversal and file reading stay with the
//! caller, which hands in paths, extensions, leading file bytes and
//! the home directory as plain values.

use vstd::prelude::*;

use crate::order::str_eq;

verus! {

/// The ASCII lower-case form of a character.
pub open spec fn lower_char(c: char) -> char {
    if 'A' as int <= c as int && c as int <= 'Z' as int {
        ((c as int + 32) as u32) as char
    } else {
        c
    }
}

/// Whether `a`, lower-cased ASCII-wise, equals `b`.
pub open spec fn eq_lower(a: Seq<char>, b: Seq<char>) -> bool {
    a.len() == b.len() && (forall|i: int| 0 <= i < a.len() ==> lower_char(#[trigger] a[i]) == b[i])
}

/// Compares a string against a lower-case pattern ignoring ASCII
/// case.
pub fn ascii_eq_lower(a: &str, b: &str) -> (r: bool)
    ensures
        r == eq_lower(a@, b@),
{
    let an = a.unicode_len();
    let bn = b.unicode_len();
    if an != bn {
        return false;
    }
    let mut i: usize = 0;
    while i < an
        invariant
            i <= an,
            an == a@.len(),
            bn == b@.len(),
            an == bn,
            forall|j: int| 0 <= j < i ==> lower_char(#[trigger] a@[j]) == b@[j],
        decreases an - i,
    {
        let ca = a.get_char(i);
        let cb = b.get_char(i);
        let la: u32 = if ca as u32 >= 'A' as u32 && ca as u32 <= 'Z' as u32 {
            ca as u32 + 32
        } else {
            ca as u32
        };
        if la != cb as u32 {
            proof {
                if lower_char(a@[i as int]) == b@[i as int] {
                    assert(lower_char(ca) as u32 == cb as u32);
                }
            }
            return false;
        }
        proof {
            assert(lower_char(ca) as u32 == la);
        }
        i = i + 1;
    }
    true
}

/// Whether `h` starts with the byte pattern `pat`.
pub open spec fn header_starts(h: Seq<u8>, pat: Seq<u8>) -> bool {
    h.len() >= pat.len() && (forall|i: int| 0 <= i < pat.len() ==> h[i] == pat[i])
}

/// Whether the leading bytes `h` of a file are a plausible image
/// header for the (case-insensitive) extension `ext`. Fewer than
/// four bytes can never be a valid image; an extension without a
/// known magic number is left to the decoder.
pub open spec fn valid_header(ext: Seq<char>, h: Seq<u8>) -> bool {
    if h.len() < 4 {
        false
    } else if eq_lower(ext, seq!['p', 'n', 'g']) {
        header_starts(h, seq![0x89u8, 0x50u8, 0x4Eu8, 0x47u8, 0x0Du8, 0x0Au8, 0x1Au8, 0x0Au8])
    } else if eq_lower(ext, seq!['j', 'p', 'g']) || eq_lower(ext, seq!['j', 'p', 'e', 'g']) {
        header_starts(h, seq![0xFFu8, 0xD8u8, 0xFFu8])
    } else if eq_lower(ext, seq!['g', 'i', 'f']) {
        header_starts(h, seq![0x47u8, 0x49u8, 0x46u8, 0x38u8, 0x37u8, 0x61u8]) || header_starts(
            h,
            seq![0x47u8, 0x49u8, 0x46u8, 0x38u8, 0x39u8, 0x61u8],
        )
    } else if eq_lower(ext, seq!['w', 'e', 'b', 'p']) {
        header_starts(h, seq![0x52u8, 0x49u8, 0x46u8, 0x46u8]) && h.len() >= 12 && h[8] == 0x57
            && h[9] == 0x45 && h[10] == 0x42 && h[11] == 0x50
    } else if eq_lower(ext, seq!['b', 'm', 'p']) {
        header_starts(h, seq![0x42u8, 0x4Du8])
    } else if eq_lower(ext, seq!['t', 'i', 'f', 'f']) || eq_lower(ext, seq!['t', 'i', 'f']) {
        header_starts(h, seq![0x4Du8, 0x4Du8, 0x00u8, 0x2Au8]) || header_starts(
            h,
            seq![0x49u8, 0x49u8, 0x2Au8, 0x00u8],
        )
    } else {
        true
    }
}

/// Checks a prefix of `header` against a literal pattern.
fn starts_with_bytes(header: &Vec<u8>, pat: &Vec<u8>) -> (r: bool)
    ensures
        r == header_starts(header@, pat@),
{
    if header.len() < pat.len() {
        return false;
    }
    let mut i: usize = 0;
    while i < pat.len()
        invariant
            i <= pat@.len(),
            header@.len() >= pat@.len(),
            forall|j: int| 0 <= j < i ==> header@[j] == pat@[j],
        decreases pat@.len() - i,
    {
        if header[i] != pat[i] {
            return false;
        }
        i = i + 1;
    }
    true
}

/// Validates the leading bytes of a file against the magic number of
/// its extension, as [`valid_header`] spells out. The caller reads
/// the first bytes (up to sixteen) and passes them in.
pub fn validate_image_format(extension: &str, header: &Vec<u8>) -> (r: bool)
    ensures
        r == valid_header(extension@, header@),
{
    if header.len() < 4 {
        return false;
    }
    if ascii_eq_lower(extension, "png") {
        proof {
            reveal_strlit("png");
        }
        let pat = vec![0x89u8, 0x50u8, 0x4Eu8, 0x47u8, 0x0Du8, 0x0Au8, 0x1Au8, 0x0Au8];
        starts_with_bytes(header, &pat)
    } else if ascii_eq_lower(extension, "jpg") || ascii_eq_lower(extension, "jpeg") {
        proof {
            reveal_strlit("png");
            reveal_strlit("jpg");
            reveal_strlit("jpeg");
        }
        let pat = vec![0xFFu8, 0xD8u8, 0xFFu8];
        starts_with_bytes(header, &pat)
    } else if ascii_eq_lower(extension, "gif") {
        proof {
            reveal_strlit("png");
            reveal_strlit("jpg");
            reveal_strlit("jpeg");
            reveal_strlit("gif");
        }
        let pat_a = vec![0x47u8, 0x49u8, 0x46u8, 0x38u8, 0x37u8, 0x61u8];
        let pat_b = vec![0x47u8, 0x49u8, 0x46u8, 0x38u8, 0x39u8, 0x61u8];
        starts_with_bytes(header, &pat_a) || starts_with_bytes(header, &pat_b)
    } else if ascii_eq_lower(extension, "webp") {
        proof {
            reveal_strlit("png");
            reveal_strlit("jpg");
            reveal_strlit("jpeg");
            reveal_strlit("gif");
            reveal_strlit("webp");
        }
        let pat = vec![0x52u8, 0x49u8, 0x46u8, 0x46u8];
        starts_with_bytes(header, &pat) && header.len() >= 12 && header[8] == 0x57 && header[9]
            == 0x45 && header[10] == 0x42 && header[11] == 0x50
    } else if ascii_eq_lower(extension, "bmp") {
        proof {
            reveal_strlit("png");
            reveal_strlit("jpg");
            reveal_strlit("jpeg");
            reveal_strlit("gif");
            reveal_strlit("webp");
            reveal_strlit("bmp");
        }
        let pat = vec![0x42u8, 0x4Du8];
        starts_with_bytes(header, &pat)
    } else if ascii_eq_lower(extension, "tiff") || ascii_eq_lower(extension, "tif") {
        proof {
            reveal_strlit("png");
            reveal_strlit("jpg");
            reveal_strlit("jpeg");
            reveal_strlit("gif");
            reveal_strlit("webp");
            reveal_strlit("bmp");
            reveal_strlit("tiff");
            reveal_strlit("tif");
        }
        let pat_a = vec![0x4Du8, 0x4Du8, 0x00u8, 0x2Au8];
        let pat_b = vec![0x49u8, 0x49u8, 0x2Au8, 0x00u8];
        starts_with_bytes(header, &pat_a) || starts_with_bytes(header, &pat_b)
    } else {
        proof {
            reveal_strlit("png");
            reveal_strlit("jpg");
            reveal_strlit("jpeg");
            reveal_strlit("gif");
            reveal_strlit("webp");
            reveal_strlit("bmp");
            reveal_strlit("tiff");
            reveal_strlit("tif");
        }
        true
    }
}

/// Whether the (case-insensitive) extension is one of the accepted
/// image extensions, which are given in lower case.
pub open spec fn ext_accepted(ext: Seq<char>, accepted: Seq<Seq<char>>) -> bool {
    exists|i: int| 0 <= i < accepted.len() && eq_lower(ext, #[trigger] accepted[i])
}

/// Whether a file should enter the processing list: it must be
/// accessible, carry an accepted image extension, and — unless
/// validation is skipped — its leading bytes must match the
/// extension's magic number. An unreadable header fails closed.
pub open spec fn should_process_spec(
    accessible: bool,
    extension: Option<Seq<char>>,
    accepted: Seq<Seq<char>>,
    skip_validation: bool,
    header: Option<Seq<u8>>,
) -> bool {
    &&& accessible
    &&& extension is Some
    &&& ext_accepted(extension->0, accepted)
    &&& (skip_validation || (header is Some && valid_header(extension->0, header->0)))
}

/// Decides whether one candidate file is processed. The caller
/// supplies what it observed: whether the file was accessible, the
/// path's extension, and the leading bytes (absent when the read
/// failed).
pub fn should_process_image_file(
    accessible: bool,
    extension: Option<&String>,
    image_extensions: &Vec<String>,
    skip_validation: bool,
    header: Option<&Vec<u8>>,
) -> (r: bool)
    ensures
        r == should_process_spec(
            accessible,
            match extension {
                Some(e) => Some(e@),
                None => None,
            },
            image_extensions.deep_view(),
            skip_validation,
            match header {
                Some(h) => Some(h@),
                None => None,
            },
        ),
{
    if !accessible {
        return false;
    }
    let ext = match extension {
        Some(e) => e,
        None => {
            return false;
        },
    };
    let mut found: bool = false;
    let mut i: usize = 0;
    while i < image_extensions.len()
        invariant
            i <= image_extensions@.len(),
            found == exists|j: int|
                0 <= j < i && eq_lower(ext@, #[trigger] image_extensions.deep_view()[j]),
        decreases image_extensions@.len() - i,
    {
        if ascii_eq_lower(ext.as_str(), image_extensions[i].as_str()) {
            proof {
                assert(eq_lower(ext@, image_extensions.deep_view()[i as int]));
            }
            found = true;
        }
        i = i + 1;
    }
    if !found {
        return false;
    }
    if skip_validation {
        return true;
    }
    match header {
        Some(h) => validate_image_format(ext.as_str(), h),
        None => false,
    }
}

/// The list a processed file contributes to the scan: the path
/// itself when it passes the checks, nothing otherwise.
pub fn process_file(
    path: &String,
    accessible: bool,
    extension: Option<&String>,
    image_extensions: &Vec<String>,
    skip_validation: bool,
    header: Option<&Vec<u8>>,
) -> (r: Vec<String>)
    ensures
        should_process_spec(
            accessible,
            match extension {
                Some(e) => Some(e@),
                None => None,
            },
            image_extensions.deep_view(),
            skip_validation,
            match header {
                Some(h) => Some(h@),
                None => None,
            },
        ) ==> r.deep_view() == seq![path@],
        !should_process_spec(
            accessible,
            match extension {
                Some(e) => Some(e@),
                None => None,
            },
            image_extensions.deep_view(),
            skip_validation,
            match header {
                Some(h) => Some(h@),
                None => None,
            },
        ) ==> r.deep_view() == Seq::<Seq<char>>::empty(),
{
    let mut out: Vec<String> = Vec::new();
    if should_process_image_file(
        accessible,
        extension,
        image_extensions,
        skip_validation,
        header,
    ) {
        out.push(path.clone());
        proof {
            assert(out.deep_view() =~= seq![path@]);
        }
    } else {
        proof {
            assert(out.deep_view() =~= Seq::<Seq<char>>::empty());
        }
    }
    out
}

/// Whether `p` is a prefix of `s`.
pub open spec fn is_prefix(p: Seq<char>, s: Seq<char>) -> bool {
    p.len() <= s.len() && (forall|i: int| 0 <= i < p.len() ==> s[i] == p[i])
}

/// Checks whether one string starts with another.
pub fn str_starts_with(s: &str, p: &str) -> (r: bool)
    ensures
        r == is_prefix(p@, s@),
{
    let sn = s.unicode_len();
    let pn = p.unicode_len();
    if pn > sn {
        return false;
    }
    let mut i: usize = 0;
    while i < pn
        invariant
            i <= pn,
            pn == p@.len(),
            sn == s@.len(),
            pn <= sn,
            forall|j: int| 0 <= j < i ==> s@[j] == p@[j],
        decreases pn - i,
    {
        if s.get_char(i) as u32 != p.get_char(i) as u32 {
            return false;
        }
        i = i + 1;
    }
    true
}

/// Whether the path falls under one of the (already expanded) ignore
/// patterns: a pattern ignores every path it is a prefix of.
pub open spec fn ignored_spec(path: Seq<char>, patterns: Seq<Seq<char>>) -> bool {
    exists|i: int| 0 <= i < patterns.len() && is_prefix(#[trigger] patterns[i], path)
}

/// Decides whether a path is ignored, given the expanded ignore
/// patterns.
pub fn should_ignore_path(path: &str, ignore_patterns: &Vec<String>) -> (r: bool)
    ensures
        r == ignored_spec(path@, ignore_patterns.deep_view()),
{
    let mut i: usize = 0;
    while i < ignore_patterns.len()
        invariant
            i <= ignore_patterns@.len(),
            forall|j: int|
                0 <= j < i ==> !is_prefix(#[trigger] ignore_patterns.deep_view()[j], path@),
        decreases ignore_patterns@.len() - i,
    {
        if str_starts_with(path, ignore_patterns[i].as_str()) {
            proof {
                assert(is_prefix(ignore_patterns.deep_view()[i as int], path@));
            }
            return true;
        }
        i = i + 1;
    }
    false
}

/// What tilde expansion yields: with a home directory, a lone `~`
/// becomes the home itself and a leading `~/` is replaced by the
/// home followed by the rest of the path; anything else — and
/// everything when no home is known — stays as it is.
pub open spec fn expand_tilde_spec(path: Seq<char>, home: Option<Seq<char>>) -> Seq<char> {
    match home {
        Some(h) => {
            if path == seq!['~'] {
                h
            } else if path.len() >= 2 && path[0] == '~' && path[1] == '/' {
                h + path.skip(1)
            } else {
                path
            }
        },
        None => path,
    }
}

/// Expands a leading tilde against the caller-supplied home
/// directory.
pub fn expand_tilde(path: &str, home: Option<&String>) -> (r: String)
    ensures
        r@ == expand_tilde_spec(path@, match home {
            Some(h) => Some(h@),
            None => None,
        }),
{
    let h = match home {
        Some(h) => h,
        None => {
            return String::from_str(path);
        },
    };
    let n = path.unicode_len();
    if n == 1 && path.get_char(0) as u32 == '~' as u32 {
        proof {
            assert(path@ =~= seq!['~']);
        }
        return h.clone();
    }
    if n >= 2 && path.get_char(0) as u32 == '~' as u32 && path.get_char(1) as u32 == '/' as u32 {
        let rest = path.substring_char(1, n);
        let joined = h.clone().concat(rest);
        proof {
            assert(joined@ =~= h@ + path@.skip(1));
        }
        return joined;
    }
    proof {
        if path@.len() == 1 && path@[0] == '~' {
            assert(path@ =~= seq!['~']);
        }
    }
    String::from_str(path)
}

} // verus!
