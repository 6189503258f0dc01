//! Reading the configuration crate's manifest.
use crate::text::{chars_of, lines, lines_of, split, split_on, starts_with, starts_with_at, string_of, views};
use vstd::prelude::*;

verus! {

/// The first of the lines `ls` that starts with `name`.
pub open spec fn first_name_line(ls: Seq<Seq<char>>) -> Option<Seq<char>>
    decreases ls.len(),
{
    if ls.len() == 0 {
        None
    } else if starts_with(ls[0], "name"@) {
        Some(ls[0])
    } else {
        first_name_line(ls.drop_first())
    }
}

/// The binary name a `Cargo.toml` text declares: the text between the first
/// and second `"` of its first line starting with `name`.
pub open spec fn binary_name_spec(manifest: Seq<char>) -> Option<Seq<char>> {
    match first_name_line(lines(manifest)) {
        None => None,
        Some(l) => {
            let pieces = split(l, '"');
            if pieces.len() > 1 {
                Some(pieces[1])
            } else {
                None
            }
        },
    }
}

/// The name of the binary that the configuration crate with manifest text
/// `manifest` builds, if it can be told.
pub fn binary_name(manifest: &str) -> (r: Option<String>)
    ensures
        match binary_name_spec(manifest@) {
            None => r is None,
            Some(n) => r matches Some(s) && s@ == n,
        },
{
    let text = chars_of(manifest);
    let ls = lines_of(text.as_slice());
    let key = chars_of("name");
    let mut j: usize = 0;
    assert(views(ls@).skip(0) =~= views(ls@));
    while j < ls.len()
        invariant
            j <= ls@.len(),
            views(ls@) == lines(manifest@),
            key@ == "name"@,
            first_name_line(views(ls@).skip(j as int)) == first_name_line(views(ls@)),
        decreases ls@.len() - j,
    {
        let line = &ls[j];
        let ghost rest = views(ls@).skip(j as int);
        assert(rest[0] == line@);
        assert(line@.skip(0) =~= line@);
        if starts_with_at(line.as_slice(), 0, key.as_slice()) {
            let pieces = split_on(line.as_slice(), '"');
            if pieces.len() > 1 {
                assert(views(pieces@)[1] == pieces@[1]@);
                return Some(string_of(pieces[1].as_slice()));
            }
            return None;
        }
        assert(rest.drop_first() =~= views(ls@).skip(j + 1));
        j = j + 1;
    }
    None
}

} // verus!
