//! What holds of every document: facts about the splitting and cleaning of
//! fields, proved from their definitions.
use vstd::prelude::*;
use crate::fields::{
    clean_field, fields_of, holds_delim, occurs_at, split_on, trim, trim_end, trim_start, unquote,
};
use crate::table::{is_term, join_fields, lines_of, scan, table_of};

verus! {

/// Text without a line terminator is read as still open: no line is finished.
proof fn lemma_scan_open(s: Seq<char>)
    requires
        forall|i: int| 0 <= i < s.len() ==> !is_term(s[i]),
    ensures
        scan(s) == (Seq::<Seq<char>>::empty(), s),
    decreases s.len(),
{
    if s.len() > 0 {
        lemma_scan_open(s.drop_last());
        assert(s.drop_last().push(s.last()) =~= s);
    }
}

/// Whether no proper suffix of `delim` is also a prefix of it, so that two
/// occurrences of it can never overlap (`;` and `;,` qualify, `aba` does not).
pub open spec fn no_self_overlap(delim: Seq<char>) -> bool {
    forall|m: int|
        0 < m < delim.len() ==> #[trigger] delim.subrange(m, delim.len() as int) != delim.subrange(
            0,
            delim.len() - m,
        )
}

/// Text `f` in front of `t`, where no occurrence of the delimiter starts
/// within `f`, joins the first piece of `t`.
proof fn lemma_split_front(f: Seq<char>, t: Seq<char>, delim: Seq<char>)
    requires
        forall|k: int| 0 <= k < f.len() ==> !occurs_at(f + t, delim, k),
    ensures
        split_on(t, delim).len() >= 1,
        split_on(f + t, delim) == split_on(t, delim).update(0, f + split_on(t, delim)[0]),
    decreases f.len(),
{
    crate::fields::lemma_split_on_nonempty(t, delim);
    let st = split_on(t, delim);
    if f.len() == 0 {
        assert(f + t =~= t);
        assert(st.update(0, f + st[0]) =~= st);
    } else {
        let s = f + t;
        let g = f.drop_first();
        assert(s.drop_first() =~= g + t);
        assert forall|k: int| 0 <= k < g.len() implies !occurs_at(g + t, delim, k) by {
            if occurs_at(g + t, delim, k) {
                assert((g + t).subrange(k, k + delim.len()) =~= s.subrange(
                    k + 1,
                    k + 1 + delim.len(),
                ));
                assert(occurs_at(s, delim, k + 1));
            }
        }
        lemma_split_front(g, t, delim);
        assert(!occurs_at(s, delim, 0));
        let p = split_on(g + t, delim);
        assert(split_on(s, delim) == p.update(0, seq![s[0]] + p[0]));
        assert(seq![s[0]] + (g + st[0]) =~= f + st[0]);
        assert(p.update(0, seq![s[0]] + p[0]) =~= st.update(0, f + st[0]));
    }
}

/// A piece that does not hold the delimiter stays whole.
proof fn lemma_split_whole(t: Seq<char>, delim: Seq<char>)
    requires
        !holds_delim(t, delim),
    ensures
        split_on(t, delim) == seq![t],
{
    let e = Seq::<char>::empty();
    assert(t + e =~= t);
    lemma_split_front(t, e, delim);
    assert(split_on(e, delim) == seq![e]);
    assert(seq![e].update(0, t + e) =~= seq![t]);
}

/// Text that holds neither a line terminator nor the delimiter, and is not
/// empty, is read as one row of one field: the text trimmed and unquoted.
pub proof fn lemma_single_field(text: Seq<char>, delim: Seq<char>)
    requires
        text.len() > 0,
        forall|i: int| 0 <= i < text.len() ==> !is_term(text[i]),
        !holds_delim(text, delim),
    ensures
        table_of(text, delim) == seq![seq![clean_field(text)]],
{
    lemma_scan_open(text);
    assert(lines_of(text) =~= seq![text]);
    lemma_split_whole(text, delim);
    assert(fields_of(text, delim) =~= seq![clean_field(text)]);
    assert(table_of(text, delim) =~= seq![seq![clean_field(text)]]);
}

/// With a delimiter that cannot overlap itself, no occurrence of it starts in
/// a field that does not hold it and runs on into the delimiter after it.
proof fn lemma_no_straddle(f: Seq<char>, delim: Seq<char>, rest: Seq<char>)
    requires
        no_self_overlap(delim),
        !holds_delim(f, delim),
    ensures
        forall|k: int| 0 <= k < f.len() ==> !occurs_at(f + (delim + rest), delim, k),
{
    let s = f + (delim + rest);
    let n = delim.len() as int;
    assert forall|k: int| 0 <= k < f.len() implies !occurs_at(s, delim, k) by {
        if occurs_at(s, delim, k) {
            if k + n <= f.len() {
                assert(f.subrange(k, k + n) =~= s.subrange(k, k + n));
                assert(occurs_at(f, delim, k));
            } else {
                let m = f.len() - k;
                assert forall|i: int| 0 <= i < n - m implies delim.subrange(m, n)[i]
                    == delim.subrange(0, n - m)[i] by {
                    assert(s.subrange(k, k + n)[m + i] == s[f.len() + i]);
                }
                assert(delim.subrange(m, n) =~= delim.subrange(0, n - m));
            }
        }
    }
}

proof fn lemma_split_join(fs: Seq<Seq<char>>, delim: Seq<char>)
    requires
        delim.len() > 0,
        no_self_overlap(delim),
        fs.len() >= 1,
        forall|k: int| 0 <= k < fs.len() ==> !holds_delim(#[trigger] fs[k], delim),
    ensures
        split_on(join_fields(fs, delim), delim) == fs,
    decreases fs.len(),
{
    if fs.len() == 1 {
        lemma_split_whole(fs[0], delim);
        assert(fs =~= seq![fs[0]]);
    } else {
        let f = fs[0];
        let r = fs.drop_first();
        assert forall|k: int| 0 <= k < r.len() implies !holds_delim(#[trigger] r[k], delim) by {
            assert(r[k] == fs[k + 1]);
        }
        lemma_split_join(r, delim);
        let j = join_fields(r, delim);
        let t = delim + j;
        assert(join_fields(fs, delim) =~= f + t);
        lemma_no_straddle(f, delim, j);
        lemma_split_front(f, t, delim);
        assert(t.subrange(0, delim.len() as int) =~= delim);
        assert(t.subrange(delim.len() as int, t.len() as int) =~= j);
        assert(split_on(t, delim) == seq![Seq::<char>::empty()] + r);
        assert((seq![Seq::<char>::empty()] + r).update(0, f + Seq::<char>::empty()) =~= fs);
    }
}

/// Fields that are their own clean form and do not hold the delimiter,
/// joined with a non-empty delimiter that cannot overlap itself, are read
/// back as the same fields.
pub proof fn lemma_join_round_trip(fs: Seq<Seq<char>>, delim: Seq<char>)
    requires
        delim.len() > 0,
        no_self_overlap(delim),
        fs.len() >= 1,
        forall|k: int| 0 <= k < fs.len() ==> clean_field(#[trigger] fs[k]) == fs[k],
        forall|k: int| 0 <= k < fs.len() ==> !holds_delim(#[trigger] fs[k], delim),
    ensures
        fields_of(join_fields(fs, delim), delim) == fs,
{
    lemma_split_join(fs, delim);
    assert(fields_of(join_fields(fs, delim), delim) =~= fs);
}

/// A field wrapped in one pair of double quotes is read as the field itself,
/// trimmed.
pub proof fn lemma_quoted_field(s: Seq<char>)
    ensures
        clean_field(seq!['"'] + s + seq!['"']) == trim(s),
{
    let q = seq!['"'] + s + seq!['"'];
    assert(trim_start(q) == q);
    assert(trim_end(q) == q);
    assert(q.drop_first().drop_last() =~= s);
    assert(unquote(q) == s);
}

/// Quoting does not change a field whose trimmed form is not already wrapped
/// in quotes: `"abc"` and `abc` are read as the same field.
pub proof fn lemma_quote_strip(s: Seq<char>)
    requires
        trim(s).len() == 0 || (trim(s)[0] != '"' && trim(s).last() != '"'),
    ensures
        clean_field(seq!['"'] + s + seq!['"']) == clean_field(s),
{
    lemma_quoted_field(s);
    lemma_trim_idempotent(s);
    assert(unquote(trim(s)) == trim(s));
}

/// Trimming twice is trimming once.
pub proof fn lemma_trim_idempotent(s: Seq<char>)
    ensures
        trim(trim(s)) == trim(s),
{
    let a = trim_start(s);
    lemma_trim_start_result(s);
    lemma_trim_end_prefix(a);
    let b = trim_end(a);
    lemma_trim_end_result(a);
    if b.len() > 0 {
        assert(b[0] == a[0]);
    }
    assert(trim_start(b) == b);
    lemma_trim_end_result(a);
}

proof fn lemma_trim_start_result(s: Seq<char>)
    ensures
        trim_start(s).len() == 0 || !crate::fields::is_ws(trim_start(s)[0]),
        trim_start(trim_start(s)) == trim_start(s),
    decreases s.len(),
{
    if s.len() > 0 && crate::fields::is_ws(s[0]) {
        lemma_trim_start_result(s.drop_first());
    }
}

proof fn lemma_trim_end_result(s: Seq<char>)
    ensures
        trim_end(s).len() == 0 || !crate::fields::is_ws(trim_end(s).last()),
        trim_end(trim_end(s)) == trim_end(s),
    decreases s.len(),
{
    if s.len() > 0 && crate::fields::is_ws(s.last()) {
        lemma_trim_end_result(s.drop_last());
    }
}

proof fn lemma_trim_end_prefix(s: Seq<char>)
    ensures
        trim_end(s).len() <= s.len(),
        trim_end(s) == s.take(trim_end(s).len() as int),
    decreases s.len(),
{
    if s.len() > 0 && crate::fields::is_ws(s.last()) {
        lemma_trim_end_prefix(s.drop_last());
        assert(s.drop_last().take(trim_end(s).len() as int) =~= s.take(trim_end(s).len() as int));
    } else {
        assert(s.take(s.len() as int) =~= s);
    }
}

/// No character of `s` has property `bad`.
pub open spec fn avoids(s: Seq<char>, bad: spec_fn(char) -> bool) -> bool {
    forall|i: int| 0 <= i < s.len() ==> !bad(#[trigger] s[i])
}

proof fn lemma_avoids_subrange(s: Seq<char>, bad: spec_fn(char) -> bool, a: int, b: int)
    requires
        avoids(s, bad),
        0 <= a <= b <= s.len(),
    ensures
        avoids(s.subrange(a, b), bad),
{
    assert forall|i: int| 0 <= i < b - a implies !bad(#[trigger] s.subrange(a, b)[i]) by {
        assert(s.subrange(a, b)[i] == s[a + i]);
    }
}

proof fn lemma_trim_start_suffix(s: Seq<char>)
    ensures
        trim_start(s).len() <= s.len(),
        trim_start(s) == s.subrange(s.len() - trim_start(s).len(), s.len() as int),
    decreases s.len(),
{
    if s.len() > 0 && crate::fields::is_ws(s[0]) {
        lemma_trim_start_suffix(s.drop_first());
        assert(s.drop_first().subrange(
            s.len() - 1 - trim_start(s).len(),
            s.len() - 1,
        ) =~= s.subrange(s.len() - trim_start(s).len(), s.len() as int));
    } else {
        assert(s.subrange(0, s.len() as int) =~= s);
    }
}

proof fn lemma_trim_avoids(s: Seq<char>, bad: spec_fn(char) -> bool)
    requires
        avoids(s, bad),
    ensures
        avoids(trim(s), bad),
{
    lemma_trim_start_suffix(s);
    let a = trim_start(s);
    lemma_avoids_subrange(s, bad, s.len() - a.len(), s.len() as int);
    lemma_trim_end_prefix(a);
    lemma_avoids_subrange(a, bad, 0, trim_end(a).len() as int);
}

/// A field holds no character that the raw piece it comes from does not hold.
proof fn lemma_clean_avoids(s: Seq<char>, bad: spec_fn(char) -> bool)
    requires
        avoids(s, bad),
    ensures
        avoids(clean_field(s), bad),
{
    lemma_trim_avoids(s, bad);
    let t = trim(s);
    let a = if t.len() > 0 && t[0] == '"' { t.drop_first() } else { t };
    lemma_avoids_subrange(t, bad, t.len() - a.len(), t.len() as int);
    assert(a =~= t.subrange(t.len() - a.len(), t.len() as int));
    let b = unquote(t);
    assert(b =~= a.subrange(0, b.len() as int));
    lemma_avoids_subrange(a, bad, 0, b.len() as int);
    lemma_trim_avoids(b, bad);
}

/// Every line of a document is free of line terminators.
proof fn lemma_lines_avoid_terms(s: Seq<char>)
    ensures
        forall|k: int|
            0 <= k < scan(s).0.len() ==> avoids(#[trigger] scan(s).0[k], |c: char| is_term(c)),
        avoids(scan(s).1, |c: char| is_term(c)),
        forall|k: int|
            0 <= k < lines_of(s).len() ==> avoids(#[trigger] lines_of(s)[k], |c: char| is_term(c)),
    decreases s.len(),
{
    if s.len() > 0 {
        lemma_lines_avoid_terms(s.drop_last());
        let (ls, cur) = scan(s.drop_last());
        if !is_term(s.last()) {
            let l = cur.push(s.last());
            assert forall|i: int| 0 <= i < l.len() implies !is_term(#[trigger] l[i]) by {
                if i < l.len() - 1 {
                    assert(l[i] == cur[i]);
                }
            }
        }
    }
}

/// A part `s[a..b]` of text that does not hold the delimiter does not hold it.
proof fn lemma_subrange_lacks(s: Seq<char>, delim: Seq<char>, a: int, b: int)
    requires
        !holds_delim(s, delim),
        0 <= a <= b <= s.len(),
    ensures
        !holds_delim(s.subrange(a, b), delim),
{
    let u = s.subrange(a, b);
    if holds_delim(u, delim) {
        let j = choose|j: int| occurs_at(u, delim, j);
        assert(u.subrange(j, j + delim.len()) =~= s.subrange(a + j, a + j + delim.len()));
        assert(occurs_at(s, delim, a + j));
    }
}

/// A field is a part of the raw piece it comes from.
proof fn lemma_clean_lacks(s: Seq<char>, delim: Seq<char>)
    requires
        !holds_delim(s, delim),
    ensures
        !holds_delim(clean_field(s), delim),
{
    lemma_trim_start_suffix(s);
    let a = trim_start(s);
    lemma_subrange_lacks(s, delim, s.len() - a.len(), s.len() as int);
    lemma_trim_end_prefix(a);
    lemma_subrange_lacks(a, delim, 0, trim_end(a).len() as int);
    let t = trim(s);
    let b = if t.len() > 0 && t[0] == '"' { t.drop_first() } else { t };
    assert(b =~= t.subrange(t.len() - b.len(), t.len() as int));
    lemma_subrange_lacks(t, delim, t.len() - b.len(), t.len() as int);
    let c = unquote(t);
    assert(c =~= b.subrange(0, c.len() as int));
    lemma_subrange_lacks(b, delim, 0, c.len() as int);
    lemma_trim_start_suffix(c);
    let d = trim_start(c);
    lemma_subrange_lacks(c, delim, c.len() - d.len(), c.len() as int);
    lemma_trim_end_prefix(d);
    lemma_subrange_lacks(d, delim, 0, trim_end(d).len() as int);
}

/// The pieces of a line do not hold the delimiter, hold no character that
/// the line does not hold, and the first is where the line starts.
proof fn lemma_split_pieces(s: Seq<char>, delim: Seq<char>, bad: spec_fn(char) -> bool)
    requires
        avoids(s, bad),
    ensures
        split_on(s, delim).len() >= 1,
        split_on(s, delim)[0].len() <= s.len(),
        split_on(s, delim)[0] == s.take(split_on(s, delim)[0].len() as int),
        forall|k: int|
            0 <= k < split_on(s, delim).len() ==> !holds_delim(
                #[trigger] split_on(s, delim)[k],
                delim,
            ) && avoids(split_on(s, delim)[k], bad),
    decreases s.len(),
{
    crate::fields::lemma_split_on_nonempty(s, delim);
    let e = Seq::<char>::empty();
    if occurs_at(s, delim, 0) {
        let rest = s.subrange(delim.len() as int, s.len() as int);
        lemma_avoids_subrange(s, bad, delim.len() as int, s.len() as int);
        lemma_split_pieces(rest, delim, bad);
        assert(s.take(0) =~= e);
        assert forall|k: int| 0 <= k < split_on(s, delim).len() implies !holds_delim(
            #[trigger] split_on(s, delim)[k],
            delim,
        ) && avoids(split_on(s, delim)[k], bad) by {
            if k > 0 {
                assert(split_on(s, delim)[k] == split_on(rest, delim)[k - 1]);
            } else {
                assert(split_on(s, delim)[0] == e);
                assert(!occurs_at(e, delim, choose|j: int| occurs_at(e, delim, j)));
            }
        }
    } else if s.len() == 0 {
        assert(split_on(s, delim) == seq![e]);
        assert(s.take(0) =~= e);
        assert(!occurs_at(e, delim, choose|j: int| occurs_at(e, delim, j)));
    } else {
        let g = s.drop_first();
        lemma_avoids_subrange(s, bad, 1, s.len() as int);
        assert(g =~= s.subrange(1, s.len() as int));
        lemma_split_pieces(g, delim, bad);
        let p = split_on(g, delim);
        let first = seq![s[0]] + p[0];
        assert(first =~= s.take(first.len() as int));
        assert(split_on(s, delim) == p.update(0, first));
        assert(!holds_delim(first, delim)) by {
            if holds_delim(first, delim) {
                let j = choose|j: int| occurs_at(first, delim, j);
                if j == 0 {
                    assert(first.subrange(0, delim.len() as int) =~= s.subrange(
                        0,
                        delim.len() as int,
                    ));
                    assert(occurs_at(s, delim, 0));
                } else {
                    assert(first.subrange(j, j + delim.len()) =~= p[0].subrange(
                        j - 1,
                        j - 1 + delim.len(),
                    ));
                    assert(occurs_at(p[0], delim, j - 1));
                }
            }
        }
        assert(avoids(first, bad)) by {
            lemma_avoids_subrange(s, bad, 0, first.len() as int);
        }
        assert forall|k: int| 0 <= k < split_on(s, delim).len() implies !holds_delim(
            #[trigger] split_on(s, delim)[k],
            delim,
        ) && avoids(split_on(s, delim)[k], bad) by {
            if k > 0 {
                assert(split_on(s, delim)[k] == p[k]);
            }
        }
    }
}

/// No field of any row holds the delimiter or a line terminator: the same
/// delimiter that joins fields bounds them.
pub proof fn lemma_fields_exclude_delimiter(text: Seq<char>, delim: Seq<char>)
    ensures
        forall|r: int, k: int|
            0 <= r < table_of(text, delim).len() && 0 <= k < table_of(text, delim)[r].len()
                ==> !holds_delim(#[trigger] table_of(text, delim)[r][k], delim) && avoids(
                table_of(text, delim)[r][k],
                |c: char| is_term(c),
            ),
{
    let t = table_of(text, delim);
    lemma_lines_avoid_terms(text);
    assert forall|r: int, k: int| 0 <= r < t.len() && 0 <= k < t[r].len() implies !holds_delim(
        #[trigger] t[r][k],
        delim,
    ) && avoids(t[r][k], |c: char| is_term(c)) by {
        let l = lines_of(text)[r];
        assert(avoids(l, |c: char| is_term(c)));
        lemma_split_pieces(l, delim, |c: char| is_term(c));
        let piece = split_on(l, delim)[k];
        lemma_clean_lacks(piece, delim);
        lemma_clean_avoids(piece, |c: char| is_term(c));
        assert(t[r][k] == clean_field(piece));
    }
}

/// Joining the fields of a line with a non-empty delimiter that cannot
/// overlap itself, and reading the joined line again, gives the same fields,
/// where no field holds a double quote.
pub proof fn lemma_row_round_trip(line: Seq<char>, delim: Seq<char>)
    requires
        delim.len() > 0,
        no_self_overlap(delim),
        forall|k: int|
            0 <= k < fields_of(line, delim).len() ==> avoids(
                #[trigger] fields_of(line, delim)[k],
                |c: char| c == '"',
            ),
    ensures
        fields_of(join_fields(fields_of(line, delim), delim), delim) == fields_of(line, delim),
{
    let fs = fields_of(line, delim);
    assert(avoids(line, |c: char| false));
    lemma_split_pieces(line, delim, |c: char| false);
    assert forall|k: int| 0 <= k < fs.len() implies clean_field(#[trigger] fs[k]) == fs[k] by {
        let piece = split_on(line, delim)[k];
        let y = unquote(trim(piece));
        lemma_trim_idempotent(y);
        let f = fs[k];
        assert(f == trim(y));
        assert(avoids(f, |c: char| c == '"'));
        if f.len() > 0 {
            assert(f[0] != '"');
            assert(f[f.len() - 1] != '"');
        }
        assert(unquote(trim(f)) == trim(f));
    }
    assert forall|k: int| 0 <= k < fs.len() implies !holds_delim(#[trigger] fs[k], delim) by {
        lemma_clean_lacks(split_on(line, delim)[k], delim);
    }
    lemma_join_round_trip(fs, delim);
}

} // verus!
