//! Rows of `top -l 1 -stats pid,cmprs` output.
use vstd::prelude::*;
use crate::text::{
    chars_of, parse_i32, parse_i32_spec, split_lines, split_newlines, split_words, string_of, views,
    words,
};

verus! {

/// The (pid, compressed-size word) of each line whose first word is a pid and
/// that has a second word, in order.
pub open spec fn top_rows(lines: Seq<Seq<char>>) -> Seq<(i32, Seq<char>)>
    decreases lines.len(),
{
    if lines.len() == 0 {
        Seq::empty()
    } else {
        let r = top_rows(lines.drop_last());
        let ws = words(lines.last());
        if ws.len() >= 2 && parse_i32_spec(ws[0]) is Some {
            r.push((parse_i32_spec(ws[0])->0, ws[1]))
        } else {
            r
        }
    }
}

/// The pid and compressed-memory size word of each process row of `top`'s output.
pub fn parse_top_output(output: &str) -> (r: Vec<(i32, String)>)
    ensures
        r@.map_values(|e: (i32, String)| (e.0, e.1@)) == top_rows(split_lines(output@)),
{
    let lines = split_newlines(&chars_of(output));
    let ghost ls = views(lines@);
    let mut r: Vec<(i32, String)> = Vec::new();
    let mut i: usize = 0;
    assert(ls.take(0) =~= Seq::<Seq<char>>::empty());
    while i < lines.len()
        invariant
            i <= lines.len(),
            ls == views(lines@),
            ls == split_lines(output@),
            r@.map_values(|e: (i32, String)| (e.0, e.1@)) == top_rows(ls.take(i as int)),
        decreases lines.len() - i,
    {
        assert(ls.take(i + 1).drop_last() =~= ls.take(i as int));
        assert(ls.take(i + 1).last() == lines@[i as int]@);
        let ws = split_words(&lines[i]);
        let ghost before = r@;
        if ws.len() >= 2 {
            assert(views(ws@)[0] == ws@[0]@);
            assert(views(ws@)[1] == ws@[1]@);
            match parse_i32(&ws[0]) {
                Some(pid) => {
                    r.push((pid, string_of(&ws[1])));
                    assert(r@.map_values(|e: (i32, String)| (e.0, e.1@)) =~= before.map_values(
                        |e: (i32, String)| (e.0, e.1@),
                    ).push((pid, ws@[1]@)));
                },
                None => {},
            }
        }
        i += 1;
    }
    assert(ls.take(lines.len() as int) =~= ls);
    r
}

} // verus!
