//! Names of the backup copy of a file and of the temporary file through
//! which it is made.

use vstd::prelude::*;

verus! {

/// The name of the backup of a file with stem `stem` and extension `ext`
/// (empty when it has none), made at the time written `stamp`:
/// `<stem>_<stamp>.<ext>`, with extension `mp4` when the file has none.
pub open spec fn spec_backup_file_name(stem: Seq<char>, stamp: Seq<char>, ext: Seq<char>) -> Seq<char> {
    stem + seq!['_'] + stamp + seq!['.'] + if ext.len() == 0 {
        seq!['m', 'p', '4']
    } else {
        ext
    }
}

/// The name of the backup of a file with stem `stem` and extension `ext`
/// (empty when it has none), made at the time written `stamp`.
pub fn backup_file_name(stem: &str, stamp: &str, ext: &str) -> (r: String)
    ensures
        r@ == spec_backup_file_name(stem@, stamp@, ext@),
{
    let mut r = String::from_str(stem);
    r.append("_");
    r.append(stamp);
    r.append(".");
    proof {
        reveal_strlit("_");
        reveal_strlit(".");
    }
    if ext.is_empty() {
        r.append("mp4");
        proof {
            reveal_strlit("mp4");
        }
    } else {
        r.append(ext);
    }
    r
}

/// The extension of the temporary file through which a backup with
/// extension `ext` is made: `<ext>.tmp`, or `tmp` when it has none.
pub open spec fn spec_temp_extension(ext: Option<Seq<char>>) -> Seq<char> {
    match ext {
        Some(e) => e + seq!['.', 't', 'm', 'p'],
        None => seq!['t', 'm', 'p'],
    }
}

/// The extension of the temporary file through which a backup with
/// extension `ext` is made.
pub fn temp_extension(ext: Option<&str>) -> (r: String)
    ensures
        r@ == spec_temp_extension(
            match ext {
                Some(e) => Some(e@),
                None => None,
            },
        ),
{
    match ext {
        Some(e) => {
            let mut r = String::from_str(e);
            r.append(".tmp");
            proof {
                reveal_strlit(".tmp");
            }
            r
        },
        None => {
            let r = String::from_str("tmp");
            proof {
                reveal_strlit("tmp");
            }
            r
        },
    }
}

} // verus!
