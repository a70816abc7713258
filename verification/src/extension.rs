//! The extension of a file name.
//!
//! The extension is what follows the last dot of the name, without the
//! dot. A name without a dot has no extension. Letters keep their case:
//! `TXT` and `txt` are different extensions.

use vstd::prelude::*;
use vstd::std_specs::iter::IteratorSpec;
use vstd::string::*;

verus! {

/// The character that separates a name from its extension.
pub const DOT: char = '.';

/// The position of the last dot in `name`, if it has one.
pub open spec fn last_dot(name: Seq<char>) -> Option<int>
    decreases name.len(),
{
    if name.len() == 0 {
        None
    } else if name.last() == DOT {
        Some(name.len() - 1)
    } else {
        last_dot(name.drop_last())
    }
}

/// The extension of `name`: what follows its last dot.
pub open spec fn extension_of(name: Seq<char>) -> Option<Seq<char>> {
    match last_dot(name) {
        Some(i) => Some(name.subrange(i + 1, name.len() as int)),
        None => None,
    }
}

/// `last_dot` finds a dot, and no dot follows it; it finds none only where
/// there is none.
pub proof fn lemma_last_dot(name: Seq<char>)
    ensures
        match last_dot(name) {
            Some(i) => {
                &&& 0 <= i < name.len()
                &&& name[i] == DOT
                &&& forall|j: int| i < j < name.len() ==> name[j] != DOT
            },
            None => forall|j: int| 0 <= j < name.len() ==> name[j] != DOT,
        },
    decreases name.len(),
{
    if name.len() > 0 && name.last() != DOT {
        let front = name.drop_last();
        lemma_last_dot(front);
        assert forall|j: int| 0 <= j < front.len() implies front[j] == name[j] by {}
    }
}

/// A name has an extension exactly if it holds a dot.
pub proof fn lemma_extension_needs_dot(name: Seq<char>)
    ensures
        extension_of(name) is Some <==> name.contains(DOT),
{
    lemma_last_dot(name);
}

/// A name made of a stem, a dot and a dotless rest has that rest as its
/// extension.
pub proof fn lemma_extension_of_parts(stem: Seq<char>, rest: Seq<char>)
    requires
        !rest.contains(DOT),
    ensures
        extension_of(stem.push(DOT) + rest) == Some(rest),
{
    let name = stem.push(DOT) + rest;
    lemma_last_dot(name);
    let at = stem.len() as int;
    assert(name[at] == DOT);
    match last_dot(name) {
        Some(i) => {
            if i > at {
                assert(rest[i - at - 1] == name[i]);
                assert(rest.contains(DOT));
            }
            assert(i == at);
            assert(name.subrange(i + 1, name.len() as int) =~= rest);
        },
        None => {},
    }
}

/// Conversely, a name with an extension is its stem, a dot and the
/// extension, and the extension holds no dot.
pub proof fn lemma_extension_splits_name(name: Seq<char>)
    requires
        extension_of(name) is Some,
    ensures
        !extension_of(name)->0.contains(DOT),
        name == name.take(last_dot(name)->0).push(DOT) + extension_of(name)->0,
{
    lemma_last_dot(name);
    let i = last_dot(name)->0;
    let ext = extension_of(name)->0;
    assert forall|j: int| 0 <= j < ext.len() implies ext[j] != DOT by {
        assert(ext[j] == name[i + 1 + j]);
    }
    assert(name =~= name.take(i).push(DOT) + ext);
}

/// Finds the position of the last dot in `name`, counted in characters.
fn find_last_dot(name: &str) -> (dot: Option<usize>)
    ensures
        match dot {
            Some(d) => last_dot(name@) == Some(d as int),
            None => last_dot(name@) is None,
        },
{
    let len = name.unicode_len();
    let mut rest = name.chars();
    let mut dot: Option<usize> = None;
    let mut i: usize = 0;
    proof {
        assert(name@.skip(0) =~= name@);
        assert(name@.take(0) =~= Seq::<char>::empty());
    }
    loop
        invariant
            len == name@.len(),
            i <= len,
            rest.remaining() == name@.skip(i as int),
            match dot {
                Some(d) => last_dot(name@.take(i as int)) == Some(d as int),
                None => last_dot(name@.take(i as int)) is None,
            },
        decreases len - i,
    {
        match rest.next() {
            Some(c) => {
                proof {
                    assert(name@.take(i + 1).drop_last() =~= name@.take(i as int));
                    assert(name@.skip(i as int).drop_first() =~= name@.skip(i + 1));
                }
                if c == DOT {
                    dot = Some(i);
                }
                i = i + 1;
            },
            None => {
                proof {
                    assert(name@.take(i as int) =~= name@);
                }
                return dot;
            },
        }
    }
}

/// The extension of the file name `name`, or `None` where it has none.
pub fn file_extension(name: &str) -> (extension: Option<String>)
    ensures
        match extension {
            Some(e) => extension_of(name@) == Some(e@),
            None => extension_of(name@) is None,
        },
{
    match find_last_dot(name) {
        Some(dot) => {
            let len = name.unicode_len();
            proof {
                lemma_last_dot(name@);
            }
            Some(name.substring_char(dot + 1, len).to_owned())
        },
        None => None,
    }
}

} // verus!
