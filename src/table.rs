//! Cutting a document into lines, and lines into rows of fields.
use vstd::prelude::*;
use crate::fields::{chars_of, fields_of, split_line, views};

verus! {

/// Carriage return and line feed each end a line.
pub open spec fn is_term(c: char) -> bool {
    c == '\r' || c == '\n'
}

/// Reading `s` left to right: the non-empty lines finished so far, and the
/// characters of the line still open.
pub open spec fn scan(s: Seq<char>) -> (Seq<Seq<char>>, Seq<char>)
    decreases s.len(),
{
    if s.len() == 0 {
        (Seq::empty(), Seq::empty())
    } else {
        let (ls, cur) = scan(s.drop_last());
        let c = s.last();
        if is_term(c) {
            if cur.len() > 0 {
                (ls.push(cur), Seq::empty())
            } else {
                (ls, Seq::empty())
            }
        } else {
            (ls, cur.push(c))
        }
    }
}

/// The non-empty pieces of `s` between line terminators, in order.
pub open spec fn lines_of(s: Seq<char>) -> Seq<Seq<char>> {
    let (ls, cur) = scan(s);
    if cur.len() > 0 {
        ls.push(cur)
    } else {
        ls
    }
}

/// The rows of a document: the fields of each of its lines.
pub open spec fn table_of(s: Seq<char>, delim: Seq<char>) -> Seq<Seq<Seq<char>>> {
    lines_of(s).map_values(|l: Seq<char>| fields_of(l, delim))
}

pub open spec fn table_views(t: Seq<Vec<String>>) -> Seq<Seq<Seq<char>>> {
    t.map_values(|r: Vec<String>| views(r@))
}

/// The fields joined into one line, with `delim` between each two.
pub open spec fn join_fields(fs: Seq<Seq<char>>, delim: Seq<char>) -> Seq<char>
    decreases fs.len(),
{
    if fs.len() == 0 {
        Seq::empty()
    } else if fs.len() == 1 {
        fs[0]
    } else {
        fs[0] + delim + join_fields(fs.drop_first(), delim)
    }
}

/// Joining one more field appends the delimiter and that field.
pub proof fn lemma_join_fields_push(fs: Seq<Seq<char>>, delim: Seq<char>, j: int)
    requires
        1 <= j < fs.len(),
    ensures
        join_fields(fs.take(j + 1), delim) == join_fields(fs.take(j), delim) + delim + fs[j],
    decreases j,
{
    if j == 1 {
        assert(fs.take(2).drop_first() =~= seq![fs[1]]);
        assert(join_fields(seq![fs[1]], delim) == fs[1]);
        assert(join_fields(fs.take(1), delim) == fs[0]);
        assert(join_fields(fs.take(2), delim) == fs[0] + delim + fs[1]);
    } else {
        let r = fs.drop_first();
        lemma_join_fields_push(r, delim, j - 1);
        assert(fs.take(j + 1).drop_first() =~= r.take(j));
        assert(fs.take(j).drop_first() =~= r.take(j - 1));
        assert(join_fields(fs.take(j + 1), delim) == fs[0] + delim + join_fields(r.take(j), delim));
        assert(join_fields(fs.take(j), delim) == fs[0] + delim + join_fields(r.take(j - 1), delim));
        assert(fs[0] + delim + (join_fields(r.take(j - 1), delim) + delim + r[j - 1]) =~= (fs[0]
            + delim + join_fields(r.take(j - 1), delim)) + delim + fs[j]);
    }
}

/// The rows of the text `text`, fields cut at each occurrence of `delim`.
pub fn rows_of(text: &str, delim: &str) -> (r: Vec<Vec<String>>)
    ensures
        table_views(r@) == table_of(text@, delim@),
{
    let v = chars_of(text);
    let d = chars_of(delim);
    let n = v.len();
    let mut out: Vec<Vec<String>> = Vec::new();
    let ghost mut ls: Seq<Seq<char>> = Seq::empty();
    let mut start: usize = 0;
    let mut i: usize = 0;
    assert(v@.subrange(0, 0) =~= Seq::<char>::empty());
    while i < n
        invariant
            n == v@.len(),
            start <= i <= n,
            scan(v@.subrange(0, i as int)) == (ls, v@.subrange(start as int, i as int)),
            table_views(out@) == ls.map_values(|l: Seq<char>| fields_of(l, d@)),
        decreases n - i,
    {
        let ghost p = v@.subrange(0, i as int);
        assert(v@.subrange(0, i + 1).drop_last() =~= p);
        if v[i] == '\r' || v[i] == '\n' {
            if start < i {
                let row = split_line(&v, start, i, &d);
                let ghost old_out = out@;
                let ghost old_ls = ls;
                proof {
                    ls = ls.push(v@.subrange(start as int, i as int));
                }
                out.push(row);
                assert(table_views(out@) =~= table_views(old_out).push(views(row@)));
                assert(ls.map_values(|l: Seq<char>| fields_of(l, d@)) =~= old_ls.map_values(
                    |l: Seq<char>| fields_of(l, d@),
                ).push(fields_of(v@.subrange(start as int, i as int), d@)));
            }
            start = i + 1;
            assert(v@.subrange(start as int, i + 1) =~= Seq::<char>::empty());
        } else {
            assert(v@.subrange(start as int, i as int).push(v@[i as int]) =~= v@.subrange(
                start as int,
                i + 1,
            ));
        }
        i = i + 1;
    }
    assert(v@.subrange(0, n as int) =~= text@);
    if start < n {
        let row = split_line(&v, start, n, &d);
        let ghost old_out = out@;
        let ghost old_ls = ls;
        proof {
            ls = ls.push(v@.subrange(start as int, n as int));
        }
        out.push(row);
        assert(table_views(out@) =~= table_views(old_out).push(views(row@)));
        assert(ls.map_values(|l: Seq<char>| fields_of(l, d@)) =~= old_ls.map_values(
            |l: Seq<char>| fields_of(l, d@),
        ).push(fields_of(v@.subrange(start as int, n as int), d@)));
    }
    out
}

/// The fields of `row` joined into one line, with `delim` between each two.
pub fn join_row(row: &Vec<String>, delim: &str) -> (r: String)
    ensures
        r@ == join_fields(views(row@), delim@),
{
    let mut s = String::new();
    let mut j: usize = 0;
    while j < row.len()
        invariant
            j <= row@.len(),
            s@ == join_fields(views(row@).take(j as int), delim@),
        decreases row.len() - j,
    {
        let ghost fs = views(row@).take(j + 1);
        proof {
            if j > 0 {
                lemma_join_fields_push(views(row@), delim@, j as int);
            }
        }
        if j > 0 {
            s.append(delim);
        }
        s.append(row[j].as_str());
        proof {
            if j == 0 {
                assert(views(row@).take(0) =~= Seq::<Seq<char>>::empty());
                assert(s@ =~= fs[0]);
            }
        }
        j = j + 1;
    }
    assert(views(row@).take(row@.len() as int) =~= views(row@));
    s
}

} // verus!
