//! Structure of relative paths, viewed as byte strings.
//!
//! A relative path inside a layer is a sequence of bytes with `/` separating
//! its components. The merge rules look at three things: the first component
//! (to fence off reserved subtrees), whether the path is a single component
//! (a top-level file), and the extension of its file name. The extension
//! follows the usual convention: the bytes after the last dot of the file
//! name, where a dot in the leading position marks a hidden file rather than
//! an extension.

use vstd::prelude::*;

verus! {

/// Path separator byte, `/`.
pub const SEP: u8 = 47;

/// Extension separator byte, `.`.
pub const DOT: u8 = 46;

/// Index of the first separator at or after `i`, or the length if there is
/// none.
pub open spec fn first_sep_from(s: Seq<u8>, i: int) -> int
    decreases s.len() - i when 0 <= i <= s.len()
{
    if i >= s.len() {
        s.len() as int
    } else if s[i] == SEP {
        i
    } else {
        first_sep_from(s, i + 1)
    }
}

/// The first component of a path: everything before the first separator.
pub open spec fn first_component(s: Seq<u8>) -> Seq<u8> {
    s.subrange(0, first_sep_from(s, 0))
}

/// A path of exactly one component: it contains no separator.
pub open spec fn single_component(s: Seq<u8>) -> bool {
    first_sep_from(s, 0) == s.len()
}

/// Index of the last separator strictly before `i`, or -1 if there is none.
pub open spec fn last_sep_before(s: Seq<u8>, i: int) -> int
    decreases i when i <= s.len()
{
    if i <= 0 {
        -1
    } else if s[i - 1] == SEP {
        i - 1
    } else {
        last_sep_before(s, i - 1)
    }
}

/// The file name of a path: everything after the last separator.
pub open spec fn file_name(s: Seq<u8>) -> Seq<u8> {
    s.subrange(last_sep_before(s, s.len() as int) + 1, s.len() as int)
}

/// Index of the last dot of a file name strictly before `i` and at position
/// 1 or above, or -1 if there is none.
pub open spec fn last_dot_before(name: Seq<u8>, i: int) -> int
    decreases i when i <= name.len()
{
    if i <= 1 {
        -1
    } else if name[i - 1] == DOT {
        i - 1
    } else {
        last_dot_before(name, i - 1)
    }
}

/// The extension of a bare file name: the bytes after its last dot. A name
/// whose only dot leads (a hidden file) has no extension; a trailing dot
/// gives the empty extension.
pub open spec fn extension(name: Seq<u8>) -> Option<Seq<u8>> {
    let d = last_dot_before(name, name.len() as int);
    if d >= 1 {
        Some(name.subrange(d + 1, name.len() as int))
    } else {
        None
    }
}

/// The extension of a whole path: the extension of its file name.
pub open spec fn path_extension(s: Seq<u8>) -> Option<Seq<u8>> {
    extension(file_name(s))
}

/// Decides whether the first component of `rel` equals `name`.
pub fn first_component_is(rel: &Vec<u8>, name: &[u8]) -> (r: bool)
    ensures
        r == (first_component(rel@) == name@),
{
    let mut k: usize = 0;
    loop
        invariant
            0 <= k <= rel@.len(),
            first_sep_from(rel@, 0) == first_sep_from(rel@, k as int),
        ensures
            0 <= k <= rel@.len(),
            first_sep_from(rel@, 0) == k as int,
        decreases rel@.len() - k,
    {
        if k == rel.len() || rel[k] == SEP {
            break;
        }
        k = k + 1;
    }
    if k != name.len() {
        assert(first_component(rel@).len() == k);
        return false;
    }
    for i in 0..k
        invariant
            k == name@.len(),
            k <= rel@.len(),
            first_sep_from(rel@, 0) == k,
            forall|j: int| 0 <= j < i ==> rel@[j] == name@[j],
    {
        if rel[i] != name[i] {
            assert(first_component(rel@)[i as int] == rel@[i as int]);
            return false;
        }
    }
    proof {
        assert(first_component(rel@) =~= name@);
    }
    true
}

/// Decides whether `rel` is a single component.
pub fn is_single_component(rel: &Vec<u8>) -> (r: bool)
    ensures
        r == single_component(rel@),
{
    let mut k: usize = 0;
    loop
        invariant
            0 <= k <= rel@.len(),
            first_sep_from(rel@, 0) == first_sep_from(rel@, k as int),
        decreases rel@.len() - k,
    {
        if k == rel.len() {
            return true;
        }
        if rel[k] == SEP {
            return false;
        }
        k = k + 1;
    }
}

/// Extracts the file name of `rel` into a fresh vector.
pub fn file_name_of(rel: &Vec<u8>) -> (n: Vec<u8>)
    ensures
        n@ == file_name(rel@),
{
    let mut i: usize = rel.len();
    loop
        invariant
            0 <= i <= rel@.len(),
            last_sep_before(rel@, rel@.len() as int) == last_sep_before(rel@, i as int),
        ensures
            0 <= i <= rel@.len(),
            // i is one past the last separator, or 0.
            last_sep_before(rel@, rel@.len() as int) == i - 1,
        decreases i,
    {
        if i == 0 || rel[i - 1] == SEP {
            break;
        }
        i = i - 1;
    }
    let mut n: Vec<u8> = Vec::new();
    let mut j: usize = i;
    while j < rel.len()
        invariant
            i <= j <= rel@.len(),
            n@ == rel@.subrange(i as int, j as int),
        decreases rel@.len() - j,
    {
        n.push(rel[j]);
        proof {
            assert(n@ =~= rel@.subrange(i as int, j + 1));
        }
        j = j + 1;
    }
    proof {
        assert(n@ =~= file_name(rel@));
    }
    n
}

/// Decides whether the extension of the file name `name` equals `ext`.
pub fn extension_is(name: &Vec<u8>, ext: &[u8]) -> (r: bool)
    ensures
        r == (extension(name@) == Some(ext@)),
{
    let mut i: usize = name.len();
    loop
        invariant
            0 <= i <= name@.len(),
            last_dot_before(name@, name@.len() as int) == last_dot_before(name@, i as int),
        ensures
            2 <= i <= name@.len(),
            last_dot_before(name@, name@.len() as int) == i - 1,
        decreases i,
    {
        if i <= 1 {
            // No dot counts as an extension separator: no extension.
            return false;
        }
        if name[i - 1] == DOT {
            break;
        }
        i = i - 1;
    }
    let d = i - 1;
    // The extension runs from d + 1 to the end.
    let elen = name.len() - d - 1;
    if elen != ext.len() {
        assert(extension(name@).unwrap().len() == elen);
        return false;
    }
    for j in 0..elen
        invariant
            name@.len() <= usize::MAX,
            1 <= d < name@.len(),
            elen == name@.len() - d - 1,
            elen == ext@.len(),
            last_dot_before(name@, name@.len() as int) == d,
            forall|m: int| 0 <= m < j ==> name@[d + 1 + m] == ext@[m],
    {
        if name[d + 1 + j] != ext[j] {
            assert(extension(name@).unwrap()[j as int] == name@[d + 1 + j]);
            return false;
        }
    }
    proof {
        assert(extension(name@).unwrap() =~= ext@);
    }
    true
}

} // verus!
