//! Picking the image files out of a directory listing.

use vstd::prelude::*;
use vstd::string::StrSliceExecFns;

verus! {

/// One direct child of a directory, as the listing reported it.
pub struct DirChild {
    /// Full path of the child.
    pub path: String,
    /// Last component of the path.
    pub file_name: String,
}

/// What lower-casing a string gives (Unicode rules).
pub uninterp spec fn lower_of(s: Seq<char>) -> Seq<char>;

/// Relies on `str::to_lowercase`: the result depends on the characters alone.
#[verifier::external_body]
pub(crate) fn lowercase(s: &str) -> (r: String)
    ensures
        r@ == lower_of(s@),
{
    s.to_lowercase()
}

/// Index of the last `'.'` among the first `end` characters, or -1.
pub open spec fn last_dot(name: Seq<char>, end: int) -> int
    decreases end,
{
    if end <= 0 {
        -1
    } else if name[end - 1] == '.' {
        end - 1
    } else {
        last_dot(name, end - 1)
    }
}

/// The extension of a file name: what follows its last dot, provided that
/// dot is not the name's first character (and the name is not `..`).
pub open spec fn extension_of(name: Seq<char>) -> Option<Seq<char>> {
    let k = last_dot(name, name.len() as int);
    if name == seq!['.', '.'] || k <= 0 {
        None
    } else {
        Some(name.subrange(k + 1, name.len() as int))
    }
}

/// The four accepted extensions, compared after lower-casing.
pub open spec fn is_image_ext(e: Seq<char>) -> bool {
    e == seq!['p', 'n', 'g'] || e == seq!['j', 'p', 'g'] || e == seq!['j', 'p', 'e', 'g']
        || e == seq!['b', 'm', 'p']
}

/// A file name whose lower-cased extension is one of the accepted four.
pub open spec fn is_image_name(name: Seq<char>) -> bool {
    match extension_of(name) {
        Some(e) => is_image_ext(lower_of(e)),
        None => false,
    }
}

/// The paths of the children that name image files, in listing order.
pub open spec fn images_among(children: Seq<DirChild>) -> Seq<Seq<char>>
    decreases children.len(),
{
    if children.len() == 0 {
        Seq::empty()
    } else {
        let rest = images_among(children.drop_last());
        let c = children.last();
        if is_image_name(c.file_name@) {
            rest.push(c.path@)
        } else {
            rest
        }
    }
}

/// Whether a lower-cased extension is one of `png`, `jpg`, `jpeg`, `bmp`.
pub fn is_image_extension(lowered: &str) -> (r: bool)
    ensures
        r == is_image_ext(lowered@),
{
    let n = lowered.unicode_len();
    if n == 3 {
        let a = lowered.get_char(0);
        let b = lowered.get_char(1);
        let c = lowered.get_char(2);
        let r = (a == 'p' && b == 'n' && c == 'g') || (a == 'j' && b == 'p' && c == 'g') || (a
            == 'b' && b == 'm' && c == 'p');
        proof {
            if r {
                assert(lowered@ =~= seq![a, b, c]);
            }
        }
        r
    } else if n == 4 {
        let a = lowered.get_char(0);
        let b = lowered.get_char(1);
        let c = lowered.get_char(2);
        let d = lowered.get_char(3);
        let r = a == 'j' && b == 'p' && c == 'e' && d == 'g';
        proof {
            if r {
                assert(lowered@ =~= seq![a, b, c, d]);
            }
        }
        r
    } else {
        false
    }
}

/// The extension of a file name, as `Path::extension` reads it.
pub fn extension(name: &str) -> (r: Option<&str>)
    ensures
        match r {
            Some(e) => extension_of(name@) == Some(e@),
            None => extension_of(name@) is None,
        },
{
    let n = name.unicode_len();
    let mut end: usize = n;
    while end > 0 && name.get_char(end - 1) != '.'
        invariant
            end <= n == name@.len(),
            last_dot(name@, n as int) == last_dot(name@, end as int),
        decreases end,
    {
        end = end - 1;
    }
    if end <= 1 {
        return None;
    }
    if n == 2 && name.get_char(0) == '.' && name.get_char(1) == '.' {
        assert(name@ =~= seq!['.', '.']);
        return None;
    }
    proof {
        if name@ == seq!['.', '.'] {
            assert(name@[0] == '.' && name@[1] == '.');
        }
    }
    Some(name.substring_char(end, n))
}

/// Whether a file name carries one of the four image extensions, in any case.
pub fn is_image_file_name(name: &str) -> (r: bool)
    ensures
        r == is_image_name(name@),
{
    match extension(name) {
        Some(e) => {
            let lowered = lowercase(e);
            is_image_extension(lowered.as_str())
        },
        None => false,
    }
}

/// The children of one directory that are image files, in listing order.
pub fn get_image_paths(children: &Vec<DirChild>) -> (r: Vec<String>)
    ensures
        r.deep_view() == images_among(children@),
{
    let mut out: Vec<String> = Vec::new();
    let mut i: usize = 0;
    while i < children.len()
        invariant
            i <= children.len(),
            out.deep_view() == images_among(children@.subrange(0, i as int)),
        decreases children.len() - i,
    {
        let c = &children[i];
        let keep = is_image_file_name(c.file_name.as_str());
        proof {
            let pre = children@.subrange(0, i as int + 1);
            assert(pre.drop_last() =~= children@.subrange(0, i as int));
            assert(pre.last() == *c);
        }
        if keep {
            let ghost before = out.deep_view();
            out.push(c.path.clone());
            assert(out.deep_view() =~= before.push(c.path@));
        }
        i = i + 1;
    }
    assert(children@.subrange(0, children.len() as int) =~= children@);
    out
}

/// A path is picked exactly when some child has that path and an image
/// file name.
pub proof fn lemma_images_among_exact(children: Seq<DirChild>, p: Seq<char>)
    ensures
        images_among(children).contains(p) <==> exists|i: int|
            0 <= i < children.len() && #[trigger] children[i].path@ == p && is_image_name(
                children[i].file_name@,
            ),
    decreases children.len(),
{
    if children.len() > 0 {
        let init = children.drop_last();
        lemma_images_among_exact(init, p);
        let rest = images_among(init);
        if images_among(children).contains(p) {
            if rest.contains(p) {
                let i = choose|i: int|
                    0 <= i < init.len() && #[trigger] init[i].path@ == p && is_image_name(
                        init[i].file_name@,
                    );
                assert(children[i] == init[i]);
            } else {
                let k = children.len() - 1;
                let j = choose|j: int| 0 <= j < images_among(children).len() && images_among(children)[j] == p;
                assert(is_image_name(children.last().file_name@));
                assert(children[k].path@ == p);
            }
        } else {
            if rest.contains(p) {
                let j = choose|j: int| 0 <= j < rest.len() && rest[j] == p;
                if is_image_name(children.last().file_name@) {
                    assert(images_among(children)[j] == p);
                } else {
                    assert(images_among(children)[j] == p);
                }
            }
            assert forall|i: int|
                0 <= i < children.len() && #[trigger] children[i].path@ == p implies !is_image_name(
                children[i].file_name@,
            ) by {
                if i < children.len() - 1 {
                    assert(init[i] == children[i]);
                } else if is_image_name(children[i].file_name@) {
                    let full = rest.push(children.last().path@);
                    assert(images_among(children) == full);
                    assert(full[rest.len() as int] == p);
                    assert(full.contains(p));
                }
            }
        }
    }
}

} // verus!
