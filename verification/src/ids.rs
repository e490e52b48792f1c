//! Program ids: formation from a file stem plus a random suffix, and
//! resolution of user-supplied id prefixes against the live table.

use vstd::prelude::*;
use vstd::string::StrSliceExecFns;
use rand::distr::SampleString;
use crate::errors::ServerError;

verus! {

/// `p` is an initial segment of `s`.
pub open spec fn is_prefix_of(p: Seq<char>, s: Seq<char>) -> bool {
    p.len() <= s.len() && s.subrange(0, p.len() as int) == p
}

/// Whether `s` starts with `p`, decided character by character.
pub fn str_has_prefix(s: &str, p: &str) -> (r: bool)
    ensures
        r == is_prefix_of(p@, s@),
{
    let sn = s.unicode_len();
    let pn = p.unicode_len();
    if pn > sn {
        return false;
    }
    let mut i: usize = 0;
    while i < pn
        invariant
            i <= pn,
            pn == p@.len(),
            sn == s@.len(),
            pn <= sn,
            forall|j: int| 0 <= j < i ==> s@[j] == p@[j],
        decreases pn - i,
    {
        if s.get_char(i) != p.get_char(i) {
            proof {
                assert(s@.subrange(0, pn as int)[i as int] != p@[i as int]);
            }
            return false;
        }
        i = i + 1;
    }
    proof {
        assert(s@.subrange(0, pn as int) =~= p@);
    }
    true
}

/// How many of `keys` start with the prefix `p`.
pub open spec fn match_count(keys: Seq<Seq<char>>, p: Seq<char>) -> nat
    decreases keys.len(),
{
    if keys.len() == 0 {
        0
    } else {
        match_count(keys.drop_last(), p) + (if is_prefix_of(p, keys.last()) {
            1nat
        } else {
            0nat
        })
    }
}

/// The views of a table of id strings.
pub open spec fn key_views(keys: Seq<String>) -> Seq<Seq<char>> {
    keys.map_values(|k: String| k@)
}

/// Resolves a user-supplied id prefix against the live ids.
///
/// Succeeds exactly when precisely one id starts with the prefix; no match
/// is reported as not-found and several matches as ambiguous.
pub fn search_id(keys: &Vec<String>, id: &str) -> (r: Result<String, ServerError>)
    ensures
        r is Ok <==> match_count(key_views(keys@), id@) == 1,
        r matches Ok(k) ==> is_prefix_of(id@, k@) && key_views(keys@).contains(k@),
        r matches Err(e) ==> match e {
            ServerError::NotFound { id: i } => i@ == id@ && match_count(key_views(keys@), id@)
                == 0,
            ServerError::Ambiguous { id: i } => i@ == id@ && match_count(key_views(keys@), id@)
                >= 2,
            _ => false,
        },
{
    let ghost ks = key_views(keys@);
    let mut count: usize = 0;
    let mut found: usize = 0;
    let mut i: usize = 0;
    while i < keys.len()
        invariant
            i <= keys.len(),
            ks == key_views(keys@),
            ks.len() == keys@.len(),
            count as nat == match_count(ks.take(i as int), id@),
            count <= i,
            count >= 1 ==> found < i && is_prefix_of(id@, ks[found as int]),
        decreases keys.len() - i,
    {
        proof {
            assert(ks.take(i + 1).drop_last() =~= ks.take(i as int));
            assert(ks.take(i + 1).last() == ks[i as int]);
        }
        if str_has_prefix(keys[i].as_str(), id) {
            count = count + 1;
            found = i;
        }
        i = i + 1;
    }
    proof {
        assert(ks.take(keys@.len() as int) =~= ks);
    }
    if count == 0 {
        Err(ServerError::NotFound { id: String::from_str(id) })
    } else if count == 1 {
        Ok(keys[found].clone())
    } else {
        Err(ServerError::Ambiguous { id: String::from_str(id) })
    }
}

/// An ASCII letter or digit.
pub open spec fn is_alphanumeric_char(c: char) -> bool {
    (97 <= c as u32 && c as u32 <= 122) || (65 <= c as u32 && c as u32 <= 90) || (48 <= c as u32
        && c as u32 <= 57)
}

/// Relies on rand's `Alphanumeric` distribution: `sample_string` appends
/// exactly `length` characters, each sampled uniformly from the ASCII
/// letters and digits a-z, A-Z, 0-9.
#[verifier::external_body]
pub fn generate_random_string(length: usize) -> (r: String)
    ensures
        r@.len() == length as nat,
        forall|i: int| 0 <= i < r@.len() ==> is_alphanumeric_char(#[trigger] r@[i]),
{
    rand::distr::Alphanumeric.sample_string(&mut rand::rng(), length)
}

/// Forms a program id from a file stem and a random suffix.
pub fn make_program_id(stem: &str, suffix: &str) -> (r: String)
    ensures
        r@ == stem@ + "-"@ + suffix@,
{
    String::from_str(stem).concat("-").concat(suffix)
}

/// Drops trailing path separators and trailing `.` path components, which
/// name the same directory entry as the path without them.
pub open spec fn spec_trim_path_end(s: Seq<char>) -> Seq<char>
    decreases s.len(),
{
    if s.len() > 0 && s.last() == '/' {
        spec_trim_path_end(s.drop_last())
    } else if s.len() >= 2 && s.last() == '.' && s[s.len() - 2] == '/' {
        spec_trim_path_end(s.take(s.len() - 2))
    } else {
        s
    }
}

/// The characters after the last path separator.
pub open spec fn spec_after_last_slash(s: Seq<char>) -> Seq<char>
    decreases s.len(),
{
    if s.len() == 0 {
        s
    } else if s.last() == '/' {
        Seq::empty()
    } else {
        spec_after_last_slash(s.drop_last()).push(s.last())
    }
}

/// The position of the dot starting the extension: the last `.` in the
/// file name, except one in the leading position, which marks a hidden
/// file rather than an extension.
pub open spec fn spec_extension_dot(name: Seq<char>) -> Option<int>
    decreases name.len(),
{
    if name.len() <= 1 {
        None
    } else if name.last() == '.' {
        Some(name.len() - 1)
    } else {
        spec_extension_dot(name.drop_last())
    }
}

/// The file name without its extension.
pub open spec fn spec_strip_extension(name: Seq<char>) -> Seq<char> {
    match spec_extension_dot(name) {
        Some(i) => name.take(i),
        None => name,
    }
}

/// The stem of the file a path names: the last path component, without
/// its extension. A path naming no file — empty, a bare directory
/// separator, or one ending in a `.` or `..` component — has none.
pub open spec fn spec_file_stem(path: Seq<char>) -> Option<Seq<char>> {
    let name = spec_after_last_slash(spec_trim_path_end(path));
    if name.len() == 0 || name == seq!['.'] || name == seq!['.', '.'] {
        None
    } else {
        Some(spec_strip_extension(name))
    }
}

/// Extracts the file stem of `path`, the part a program id is derived
/// from.
pub fn file_stem(path: &str) -> (r: Option<String>)
    ensures
        match r {
            Some(s) => spec_file_stem(path@) == Some(s@),
            None => spec_file_stem(path@) is None,
        },
{
    let n = path.unicode_len();
    proof {
        assert(path@.take(n as int) =~= path@);
    }
    // Trim trailing separators and trailing `.` components.
    let mut e: usize = n;
    while e > 0 && (path.get_char(e - 1) == '/' || (e >= 2 && path.get_char(e - 1) == '.'
        && path.get_char(e - 2) == '/'))
        invariant
            e <= n,
            n == path@.len(),
            spec_trim_path_end(path@) == spec_trim_path_end(path@.take(e as int)),
        decreases e,
    {
        if path.get_char(e - 1) == '/' {
            proof {
                assert(path@.take(e as int).drop_last() =~= path@.take(e - 1));
            }
            e = e - 1;
        } else {
            proof {
                assert(path@.take(e as int).take(e - 2) =~= path@.take(e - 2));
            }
            e = e - 2;
        }
    }
    let ghost trimmed = spec_trim_path_end(path@);
    proof {
        assert(trimmed =~= path@.take(e as int));
    }
    if e == 0 {
        return None;
    }
    // Find the start of the file name: the position after the last
    // separator.
    let mut b: usize = e;
    while b > 0 && path.get_char(b - 1) != '/'
        invariant
            b <= e,
            e <= n,
            n == path@.len(),
            trimmed == path@.take(e as int),
            spec_after_last_slash(trimmed) =~= spec_after_last_slash(path@.take(b as int))
                + path@.subrange(b as int, e as int),
        decreases b,
    {
        proof {
            assert(path@.take(b as int).drop_last() =~= path@.take(b - 1));
            assert(spec_after_last_slash(path@.take(b - 1)).push(path@[b - 1]) + path@.subrange(
                b as int,
                e as int,
            ) =~= spec_after_last_slash(path@.take(b - 1)) + path@.subrange(b - 1, e as int));
        }
        b = b - 1;
    }
    let ghost name = spec_after_last_slash(trimmed);
    proof {
        if b > 0 {
            assert(path@.take(b as int).last() == '/');
        }
        assert(name =~= path@.subrange(b as int, e as int));
    }
    // The trimming above leaves no separator at the end, so the name is
    // nonempty; reject the `.` and `..` components, which name no file.
    assert(b < e);
    if e - b == 1 && path.get_char(b) == '.' {
        proof {
            assert(name =~= seq!['.']);
        }
        return None;
    }
    if e - b == 2 && path.get_char(b) == '.' && path.get_char(b + 1) == '.' {
        proof {
            assert(name =~= seq!['.', '.']);
        }
        return None;
    }
    proof {
        assert(name != seq!['.'] && name != seq!['.', '.']) by {
            if name == seq!['.'] {
                assert(name.len() == 1 && name[0] == '.');
            }
            if name == seq!['.', '.'] {
                assert(name.len() == 2 && name[0] == '.' && name[1] == '.');
            }
        }
    }
    // Find the dot starting the extension, if any.
    let mut j: usize = e;
    while j > b + 1 && path.get_char(j - 1) != '.'
        invariant
            b < j <= e,
            e <= n,
            n == path@.len(),
            name == path@.subrange(b as int, e as int),
            spec_extension_dot(name) == spec_extension_dot(path@.subrange(b as int, j as int)),
        decreases j,
    {
        proof {
            assert(path@.subrange(b as int, j as int).drop_last() =~= path@.subrange(
                b as int,
                j - 1,
            ));
        }
        j = j - 1;
    }
    if j > b + 1 {
        // path[j - 1] is the extension dot: the stem ends before it.
        proof {
            let sub = path@.subrange(b as int, j as int);
            assert(sub.last() == '.');
            assert(spec_extension_dot(name) == Some(j - 1 - b));
            assert(spec_strip_extension(name) =~= path@.subrange(b as int, j - 1));
        }
        Some(path.substring_char(b, j - 1).to_owned())
    } else {
        proof {
            let sub = path@.subrange(b as int, j as int);
            assert(sub.len() <= 1);
            assert(spec_extension_dot(name) is None);
            assert(spec_strip_extension(name) =~= path@.subrange(b as int, e as int));
        }
        Some(path.substring_char(b, e).to_owned())
    }
}

} // verus!
