//! What the name of a file says: whether it is a transcript, and what the
//! directory for its pages is called.

use vstd::prelude::*;
use vstd::string::*;
use crate::search::matches_here;

verus! {

/// The byte `.`.
pub open spec fn dot() -> u8 {
    46u8
}

/// `name` ends in `.html` and has something in front of that.
pub open spec fn has_html_extension(name: Seq<u8>) -> bool {
    &&& name.len() > 5
    &&& name.subrange(name.len() - 5, name.len() as int) == ".html".spec_bytes()
}

/// The index of the last `.` in `name`, or -1 where it holds none.
pub open spec fn last_dot(name: Seq<u8>) -> int
    decreases name.len(),
{
    if name.len() == 0 {
        -1
    } else if name.last() == dot() {
        name.len() - 1
    } else {
        last_dot(name.drop_last())
    }
}

/// The name without its extension: what stands in front of the last `.`,
/// or the whole name where it holds no `.` or only one at its beginning.
pub open spec fn file_stem(name: Seq<u8>) -> Seq<u8> {
    if last_dot(name) > 0 {
        name.subrange(0, last_dot(name))
    } else {
        name
    }
}

/// Where `last_dot` is not -1 it is the index of a `.`, and no `.` follows it;
/// where it is -1 the name holds no `.`.
pub proof fn lemma_last_dot(name: Seq<u8>)
    ensures
        -1 <= last_dot(name) < name.len(),
        last_dot(name) >= 0 ==> name[last_dot(name)] == dot(),
        forall|i: int| last_dot(name) < i < name.len() ==> #[trigger] name[i] != dot(),
    decreases name.len(),
{
    if name.len() > 0 && name.last() != dot() {
        lemma_last_dot(name.drop_last());
        assert forall|i: int| last_dot(name) < i < name.len() implies #[trigger] name[i]
            != dot() by {
            if i < name.len() - 1 {
                assert(name.drop_last()[i] == name[i]);
            }
        }
    }
}

/// Whether a file of the name `file_name` is taken for a transcript when a
/// directory is worked on: its extension is `html`.
pub fn is_html_file(file_name: &[u8]) -> (r: bool)
    ensures
        r == has_html_extension(file_name@),
{
    let length: usize = file_name.len();
    proof {
        reveal_strlit(".html");
        assert(is_ascii(".html"));
        is_ascii_spec_bytes(".html");
    }
    length > 5 && matches_here(file_name, ".html".as_bytes(), length - 5)
}

/// Gives the length of the stem of `file_name`: the directory that takes
/// the pages of a transcript is called by the first `length` bytes of the
/// transcript's name.
pub fn stem_length(file_name: &[u8]) -> (length: usize)
    ensures
        length <= file_name@.len(),
        file_name@.subrange(0, length as int) == file_stem(file_name@),
{
    let whole: usize = file_name.len();
    let mut end: usize = whole;
    assert(file_name@.subrange(0, end as int) =~= file_name@);
    while end > 0
        invariant
            whole == file_name@.len(),
            end <= whole,
            last_dot(file_name@) == last_dot(file_name@.subrange(0, end as int)),
        decreases end,
    {
        if file_name[end - 1] == 46u8 {
            if end - 1 > 0 {
                return end - 1;
            }
            assert(file_name@.subrange(0, whole as int) =~= file_name@);
            return whole;
        }
        assert(file_name@.subrange(0, end as int).drop_last() =~= file_name@.subrange(
            0,
            end - 1,
        ));
        end = end - 1;
    }
    assert(file_name@.subrange(0, whole as int) =~= file_name@);
    whole
}

} // verus!
