//! Paths as the repository sees them: texts whose segments are parted by `/`.

use vstd::prelude::*;

verus! {

/// The last segment of a path: what stands behind its last `/`, or the whole
/// path where it holds none. For the path of a file this is the file's name.
pub open spec fn name_of(path: Seq<char>) -> Seq<char>
    decreases path.len(),
{
    if path.len() == 0 || path.last() == '/' {
        Seq::empty()
    } else {
        name_of(path.drop_last()).push(path.last())
    }
}

/// The file name that a path ends in.
pub fn file_name(path: &str) -> (name: String)
    ensures
        name@ == name_of(path@),
{
    let mut name = String::new();
    assert(path@.subrange(0, 0) =~= Seq::<char>::empty());
    for c in it: path.chars()
        invariant
            it.seq() == path@,
            name@ == name_of(path@.subrange(0, it.index() as int)),
    {
        let ghost i = it.index() as int;
        assert(path@.subrange(0, i + 1).drop_last() =~= path@.subrange(0, i));
        if c == '/' {
            name = String::new();
        } else {
            name.push(c);
        }
    }
    assert(path@.subrange(0, path@.len() as int) =~= path@);
    name
}

} // verus!
