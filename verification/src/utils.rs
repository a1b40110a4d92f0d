//! Classification of paths by file-name extension.
//!
//! Paths are byte strings, as the operating system reports them. A path is an
//! image file when the extension of its file name, compared case-insensitively
//! on ASCII letters, is one of: jpg, jpeg, png, gif, bmp, webp, tiff, tif.

use vstd::prelude::*;

verus! {

/// Largest index of `v` holding the byte `b`, or -1 when `b` does not occur.
pub open spec fn last_index_of(s: Seq<u8>, b: u8) -> int
    decreases s.len(),
{
    if s.len() == 0 {
        -1
    } else if s[s.len() - 1] == b {
        s.len() - 1
    } else {
        last_index_of(s.drop_last(), b)
    }
}

/// `last_index_of` is the largest index holding `b`, and -1 means `b` is absent.
pub proof fn lemma_last_index_of(s: Seq<u8>, b: u8)
    ensures
        -1 <= last_index_of(s, b) < s.len(),
        last_index_of(s, b) >= 0 ==> s[last_index_of(s, b)] == b,
        forall|j: int| last_index_of(s, b) < j < s.len() ==> s[j] != b,
    decreases s.len(),
{
    if s.len() > 0 && s[s.len() - 1] != b {
        lemma_last_index_of(s.drop_last(), b);
        assert forall|j: int| last_index_of(s, b) < j < s.len() implies s[j] != b by {
            if j < s.len() - 1 {
                assert(s.drop_last()[j] == s[j]);
            }
        }
    }
}

/// The file name: everything after the last path separator.
pub open spec fn file_name_of(p: Seq<u8>) -> Seq<u8> {
    p.subrange(last_index_of(p, 47u8) + 1, p.len() as int)
}

/// The extension of a file name: everything after its last dot. A name
/// without a dot, or whose only dot starts it (a hidden file), has none.
pub open spec fn extension_of(p: Seq<u8>) -> Option<Seq<u8>> {
    let name = file_name_of(p);
    let d = last_index_of(name, 46u8);
    if d <= 0 {
        None
    } else {
        Some(name.subrange(d + 1, name.len() as int))
    }
}

/// ASCII lower-casing of one byte.
pub open spec fn to_lower_byte(b: u8) -> u8 {
    if 65 <= b <= 90 {
        (b + 32) as u8
    } else {
        b
    }
}

/// ASCII lower-casing of a byte string.
pub open spec fn to_lower(s: Seq<u8>) -> Seq<u8> {
    s.map_values(|b: u8| to_lower_byte(b))
}

/// Whether a lower-cased extension is one of the supported image formats:
/// jpg, jpeg, png, gif, bmp, webp, tiff, tif.
pub open spec fn is_supported_ext(e: Seq<u8>) -> bool {
    ||| e =~= seq![106u8, 112u8, 103u8]
    ||| e =~= seq![106u8, 112u8, 101u8, 103u8]
    ||| e =~= seq![112u8, 110u8, 103u8]
    ||| e =~= seq![103u8, 105u8, 102u8]
    ||| e =~= seq![98u8, 109u8, 112u8]
    ||| e =~= seq![119u8, 101u8, 98u8, 112u8]
    ||| e =~= seq![116u8, 105u8, 102u8, 102u8]
    ||| e =~= seq![116u8, 105u8, 102u8]
}

/// Whether a path names a supported image file.
pub open spec fn is_image_path(p: Seq<u8>) -> bool {
    match extension_of(p) {
        Some(e) => is_supported_ext(to_lower(e)),
        None => false,
    }
}

/// Largest index of `v` holding `b`, if any.
pub fn last_pos(v: &Vec<u8>, b: u8) -> (r: Option<usize>)
    ensures
        match r {
            Some(i) => last_index_of(v@, b) == i,
            None => last_index_of(v@, b) == -1,
        },
{
    proof {
        lemma_last_index_of(v@, b);
    }
    let mut i: usize = v.len();
    while i > 0
        invariant
            i <= v@.len(),
            forall|j: int| i <= j < v@.len() ==> v@[j] != b,
            -1 <= last_index_of(v@, b) < v@.len(),
            last_index_of(v@, b) >= 0 ==> v@[last_index_of(v@, b)] == b,
            forall|j: int| last_index_of(v@, b) < j < v@.len() ==> v@[j] != b,
        decreases i,
    {
        i = i - 1;
        if v[i] == b {
            return Some(i);
        }
    }
    None
}

/// The bytes of `v` from `from` (inclusive) to `to` (exclusive).
pub fn subvec(v: &Vec<u8>, from: usize, to: usize) -> (r: Vec<u8>)
    requires
        from <= to <= v@.len(),
    ensures
        r@ == v@.subrange(from as int, to as int),
{
    let mut r: Vec<u8> = Vec::new();
    let mut i: usize = from;
    while i < to
        invariant
            from <= i <= to <= v@.len(),
            r@.len() == i - from,
            forall|j: int| 0 <= j < r@.len() ==> r@[j] == v@[from + j],
        decreases to - i,
    {
        r.push(v[i]);
        i = i + 1;
    }
    proof {
        assert(r@ =~= v@.subrange(from as int, to as int));
    }
    r
}

/// ASCII lower-casing of a byte string.
pub fn to_lower_vec(v: &Vec<u8>) -> (r: Vec<u8>)
    ensures
        r@ == to_lower(v@),
{
    let mut r: Vec<u8> = Vec::new();
    let mut i: usize = 0;
    while i < v.len()
        invariant
            i <= v@.len(),
            r@.len() == i,
            forall|j: int| 0 <= j < i ==> r@[j] == to_lower_byte(v@[j]),
        decreases v@.len() - i,
    {
        let b = v[i];
        if 65 <= b && b <= 90 {
            r.push(b + 32);
        } else {
            r.push(b);
        }
        i = i + 1;
    }
    proof {
        assert(r@ =~= to_lower(v@));
    }
    r
}

/// The parent directory of a path, if it has one: everything before the
/// last separator. The root has none, and neither has a bare name; the
/// parent of a top-level entry is the root itself. Paths are taken as
/// normalized, without a trailing separator.
pub open spec fn parent_of(p: Seq<u8>) -> Option<Seq<u8>> {
    let k = last_index_of(p, 47u8);
    if p.len() == 1 && p[0] == 47u8 {
        None
    } else if k < 0 {
        None
    } else if k == 0 {
        Some(seq![47u8])
    } else {
        Some(p.subrange(0, k))
    }
}

/// The parent directory of a path, if it has one.
pub fn parent_path_of(p: &Vec<u8>) -> (r: Option<Vec<u8>>)
    ensures
        match r {
            Some(d) => parent_of(p@) == Some(d@),
            None => parent_of(p@) is None,
        },
{
    proof {
        lemma_last_index_of(p@, 47u8);
    }
    if p.len() == 1 && p[0] == 47u8 {
        return None;
    }
    match last_pos(p, 47u8) {
        None => None,
        Some(k) => {
            if k == 0 {
                let mut root: Vec<u8> = Vec::new();
                root.push(47u8);
                proof {
                    assert(root@ =~= seq![47u8]);
                }
                Some(root)
            } else {
                Some(subvec(p, 0, k))
            }
        },
    }
}

/// The file name of a path: everything after the last separator.
pub fn file_name_vec(p: &Vec<u8>) -> (r: Vec<u8>)
    ensures
        r@ == file_name_of(p@),
{
    proof {
        lemma_last_index_of(p@, 47u8);
    }
    let n = p.len();
    let start: usize = match last_pos(p, 47u8) {
        Some(i) => i + 1,
        None => 0,
    };
    subvec(p, start, n)
}

/// Whether two byte strings hold the same bytes.
pub fn eq_bytes(a: &Vec<u8>, b: &Vec<u8>) -> (r: bool)
    ensures
        r == (a@ == b@),
{
    if a.len() != b.len() {
        proof {
            assert(a@ != b@);
        }
        return false;
    }
    let mut i: usize = 0;
    while i < a.len()
        invariant
            a@.len() == b@.len(),
            i <= a@.len(),
            forall|j: int| 0 <= j < i ==> a@[j] == b@[j],
        decreases a@.len() - i,
    {
        if a[i] != b[i] {
            return false;
        }
        i = i + 1;
    }
    proof {
        assert(a@ =~= b@);
    }
    true
}

/// Whether a path points to a supported image file, judged by the extension
/// of its file name, compared case-insensitively.
///
/// Supported formats: JPEG (jpg, jpeg), PNG, GIF, BMP, WebP, TIFF (tiff, tif).
pub fn is_image_file(path: &Vec<u8>) -> (r: bool)
    ensures
        r == is_image_path(path@),
{
    proof {
        lemma_last_index_of(path@, 47u8);
    }
    let n = path.len();
    let name_start: usize = match last_pos(path, 47u8) {
        Some(i) => i + 1,
        None => 0,
    };
    let name = subvec(path, name_start, n);
    proof {
        lemma_last_index_of(name@, 46u8);
    }
    let dot = match last_pos(&name, 46u8) {
        Some(d) => d,
        None => return false,
    };
    if dot == 0 {
        return false;
    }
    let ext = to_lower_vec(&subvec(&name, dot + 1, name.len()));
    let r = (ext.len() == 3 && ext[0] == 106u8 && ext[1] == 112u8 && ext[2] == 103u8)
        || (ext.len() == 4 && ext[0] == 106u8 && ext[1] == 112u8 && ext[2] == 101u8 && ext[3]
            == 103u8)
        || (ext.len() == 3 && ext[0] == 112u8 && ext[1] == 110u8 && ext[2] == 103u8)
        || (ext.len() == 3 && ext[0] == 103u8 && ext[1] == 105u8 && ext[2] == 102u8)
        || (ext.len() == 3 && ext[0] == 98u8 && ext[1] == 109u8 && ext[2] == 112u8)
        || (ext.len() == 4 && ext[0] == 119u8 && ext[1] == 101u8 && ext[2] == 98u8 && ext[3]
            == 112u8)
        || (ext.len() == 4 && ext[0] == 116u8 && ext[1] == 105u8 && ext[2] == 102u8 && ext[3]
            == 102u8)
        || (ext.len() == 3 && ext[0] == 116u8 && ext[1] == 105u8 && ext[2] == 102u8);
    r
}

} // verus!
