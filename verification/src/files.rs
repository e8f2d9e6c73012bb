//! Decoding a multi-line file-listing response into the list of filenames.
use vstd::prelude::*;
use crate::text::{split_char, split_str, views, lemma_split_char_len};

verus! {

/// The name carried by one listing line: the text before the first space,
/// which strips the trailing size annotation.
pub open spec fn name_of_line(l: Seq<char>) -> Seq<char> {
    split_char(l, ' ')[0]
}

/// What a file-listing response decodes to. The first line (the list-begin
/// banner) and the last two lines (the end banner and the `ok` summary) are
/// dropped by position alone; a response too short to carry them decodes to
/// the empty list, as does an empty response.
pub open spec fn file_list_of(lines: Seq<Seq<char>>) -> Seq<Seq<char>> {
    if lines.len() <= 3 {
        Seq::empty()
    } else {
        lines.subrange(1, lines.len() - 2).map_values(|l: Seq<char>| name_of_line(l))
    }
}

/// Decodes the collected response lines of a file-list request.
pub fn files_from_response(lines: &Vec<String>) -> (r: Vec<String>)
    ensures
        views(r@) == file_list_of(views(lines@)),
{
    let mut r: Vec<String> = Vec::new();
    if lines.len() <= 3 {
        proof {
            assert(views(r@) =~= file_list_of(views(lines@)));
        }
        return r;
    }
    let last = lines.len() - 2;
    let mut i: usize = 1;
    while i < last
        invariant
            1 <= i <= last,
            last == lines@.len() - 2,
            lines@.len() > 3,
            views(r@) == views(lines@).subrange(1, i as int).map_values(
                |l: Seq<char>| name_of_line(l),
            ),
        decreases last - i,
    {
        let parts = split_str(lines[i].as_str(), ' ');
        proof {
            lemma_split_char_len(lines@[i as int]@, ' ');
            assert(views(parts@)[0] == parts@[0]@);
        }
        let ghost old_r = r@;
        let mut parts = parts;
        let name = parts.remove(0);
        r.push(name);
        proof {
            let f = |l: Seq<char>| name_of_line(l);
            assert(views(lines@).subrange(1, i + 1).drop_last() =~= views(lines@).subrange(
                1,
                i as int,
            ));
            assert(views(lines@).subrange(1, i + 1).last() == lines@[i as int]@);
            assert(views(lines@).subrange(1, i + 1) =~= views(lines@).subrange(1, i as int).push(
                lines@[i as int]@,
            ));
            assert(views(lines@).subrange(1, i as int).push(lines@[i as int]@).map_values(f)
                =~= views(lines@).subrange(1, i as int).map_values(f).push(f(lines@[i as int]@)));
            assert(views(r@) =~= views(old_r).push(name@));
        }
        i += 1;
    }
    proof {
        assert(views(lines@).subrange(1, last as int) =~= views(lines@).subrange(
            1,
            views(lines@).len() - 2,
        ));
    }
    r
}

} // verus!
