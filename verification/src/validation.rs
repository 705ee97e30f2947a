//! Checks on the input video file.
use vstd::prelude::*;

use crate::text::chars_of;

verus! {

/// Why an input file is refused.
#[derive(Debug, PartialEq, Eq, Structural)]
pub enum InputError {
    /// No file exists at the path (nothing, or something other than a file).
    Missing,
    /// The file's extension is not `mp4` (in any letter case).
    NotMp4,
}

/// `c` in lower case if it is an ASCII capital letter, else `c`.
pub open spec fn ascii_lower(c: char) -> char {
    if 'A' <= c && c <= 'Z' {
        ((c as u32) + 32) as char
    } else {
        c
    }
}

/// Whether `a` and `b` are equal up to ASCII letter case, as
/// `str::eq_ignore_ascii_case` compares them.
pub open spec fn eq_ignore_ascii_case(a: Seq<char>, b: Seq<char>) -> bool {
    a.len() == b.len() && forall|i: int| 0 <= i < a.len() ==> ascii_lower(#[trigger] a[i]) == ascii_lower(b[i])
}

/// Whether an extension names an MP4 file.
pub open spec fn is_mp4_extension(ext: Seq<char>) -> bool {
    eq_ignore_ascii_case(ext, seq!['m', 'p', '4'])
}

/// Checks an input video: it must be an existing file and have the
/// extension `mp4`. `is_file` tells whether the path names an existing file
/// and `extension` is the file name's extension (`None` when it has none or it is not valid text).
pub fn validate_input(is_file: bool, extension: Option<&str>) -> (r: Result<(), InputError>)
    ensures
        !is_file ==> r == Err::<(), InputError>(InputError::Missing),
        is_file ==> match extension {
            Some(ext) => if is_mp4_extension(ext@) {
                r is Ok
            } else {
                r == Err::<(), InputError>(InputError::NotMp4)
            },
            None => r == Err::<(), InputError>(InputError::NotMp4),
        },
{
    if !is_file {
        return Err(InputError::Missing);
    }
    match extension {
        Some(ext) => {
            let v = chars_of(ext);
            if v.len() == 3 && (v[0] == 'm' || v[0] == 'M') && (v[1] == 'p' || v[1] == 'P') && v[2]
                == '4' {
                assert(is_mp4_extension(ext@));
                Ok(())
            } else {
                proof {
                    if is_mp4_extension(ext@) {
                        assert(ascii_lower(v@[0]) == 'm');
                        assert(ascii_lower(v@[1]) == 'p');
                        assert(ascii_lower(v@[2]) == '4');
                    }
                }
                Err(InputError::NotMp4)
            }
        },
        None => Err(InputError::NotMp4),
    }
}

} // verus!
