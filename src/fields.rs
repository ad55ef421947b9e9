//! Field extraction: whitespace, quote stripping, and splitting one line at
//! each occurrence of the delimiter.
use vstd::prelude::*;
use vstd::std_specs::iter::IteratorSpec;

verus! {

/// The characters that `char::is_whitespace` accepts (Unicode `White_Space`).
pub open spec fn is_ws(c: char) -> bool {
    let u = c as u32;
    ||| 0x09 <= u <= 0x0D
    ||| u == 0x20
    ||| u == 0x85
    ||| u == 0xA0
    ||| u == 0x1680
    ||| 0x2000 <= u <= 0x200A
    ||| u == 0x2028
    ||| u == 0x2029
    ||| u == 0x202F
    ||| u == 0x205F
    ||| u == 0x3000
}

/// `s` without its leading whitespace.
pub open spec fn trim_start(s: Seq<char>) -> Seq<char>
    decreases s.len(),
{
    if s.len() > 0 && is_ws(s[0]) {
        trim_start(s.drop_first())
    } else {
        s
    }
}

/// `s` without its trailing whitespace.
pub open spec fn trim_end(s: Seq<char>) -> Seq<char>
    decreases s.len(),
{
    if s.len() > 0 && is_ws(s.last()) {
        trim_end(s.drop_last())
    } else {
        s
    }
}

pub open spec fn trim(s: Seq<char>) -> Seq<char> {
    trim_end(trim_start(s))
}

/// `s` without one leading and one trailing double quote, where present.
pub open spec fn unquote(s: Seq<char>) -> Seq<char> {
    let a = if s.len() > 0 && s[0] == '"' { s.drop_first() } else { s };
    if a.len() > 0 && a.last() == '"' { a.drop_last() } else { a }
}

/// The field that a raw piece of a line stands for: trimmed, unquoted, trimmed.
pub open spec fn clean_field(s: Seq<char>) -> Seq<char> {
    trim(unquote(trim(s)))
}

/// Whether the delimiter `delim` starts at position `j` of `s`.
pub open spec fn occurs_at(s: Seq<char>, delim: Seq<char>, j: int) -> bool {
    &&& delim.len() > 0
    &&& 0 <= j
    &&& j + delim.len() <= s.len()
    &&& s.subrange(j, j + delim.len()) == delim
}

/// Whether `s` holds the (non-empty) delimiter `delim` anywhere.
pub open spec fn holds_delim(s: Seq<char>, delim: Seq<char>) -> bool {
    exists|j: int| occurs_at(s, delim, j)
}

/// The raw pieces of `s` between occurrences of the delimiter string, found
/// left to right. An empty delimiter never occurs, so it leaves `s` whole.
pub open spec fn split_on(s: Seq<char>, delim: Seq<char>) -> Seq<Seq<char>>
    decreases s.len(),
{
    if occurs_at(s, delim, 0) {
        seq![Seq::<char>::empty()] + split_on(s.subrange(delim.len() as int, s.len() as int), delim)
    } else if s.len() == 0 {
        seq![Seq::<char>::empty()]
    } else {
        let p = split_on(s.drop_first(), delim);
        p.update(0, seq![s[0]] + p[0])
    }
}

/// The fields of one line. A piece between two adjacent delimiters is kept
/// as an empty field, so that every field keeps its column.
pub open spec fn fields_of(line: Seq<char>, delim: Seq<char>) -> Seq<Seq<char>> {
    split_on(line, delim).map_values(|f: Seq<char>| clean_field(f))
}

/// The text of each string.
pub open spec fn views(v: Seq<String>) -> Seq<Seq<char>> {
    v.map_values(|s: String| s@)
}

pub proof fn lemma_split_on_nonempty(s: Seq<char>, delim: Seq<char>)
    ensures
        split_on(s, delim).len() >= 1,
    decreases s.len(),
{
    if occurs_at(s, delim, 0) {
        lemma_split_on_nonempty(s.subrange(delim.len() as int, s.len() as int), delim);
    } else if s.len() > 0 {
        lemma_split_on_nonempty(s.drop_first(), delim);
    }
}

/// The characters of `s`, in order.
pub fn chars_of(s: &str) -> (r: Vec<char>)
    ensures
        r@ == s@,
{
    broadcast use vstd::string::axiom_spec_iter, vstd::string::next_postcondition;

    let mut it = s.chars();
    let mut v: Vec<char> = Vec::new();
    loop
        invariant
            v@.len() <= s@.len(),
            v@ + it.remaining() == s@,
        ensures
            v@ == s@,
        decreases s@.len() - v@.len(),
    {
        match it.next() {
            Some(c) => {
                v.push(c);
            },
            None => {
                assert(v@ + it.remaining() =~= v@);
                break ;
            },
        }
    }
    v
}

/// Relies on `String: FromIterator<&char>`: the characters `v[lo..hi]` as a string.
#[verifier::external_body]
pub(crate) fn string_of(v: &Vec<char>, lo: usize, hi: usize) -> (r: String)
    requires
        lo <= hi <= v@.len(),
    ensures
        r@ == v@.subrange(lo as int, hi as int),
{
    v[lo..hi].iter().collect()
}

pub fn is_whitespace(c: char) -> (r: bool)
    ensures
        r == is_ws(c),
{
    let u = c as u32;
    (0x09 <= u && u <= 0x0D) || u == 0x20 || u == 0x85 || u == 0xA0 || u == 0x1680 || (0x2000
        <= u && u <= 0x200A) || u == 0x2028 || u == 0x2029 || u == 0x202F || u == 0x205F || u
        == 0x3000
}

/// The bounds of `v[lo..hi]` with its surrounding whitespace left out.
fn trim_range(v: &Vec<char>, lo: usize, hi: usize) -> (r: (usize, usize))
    requires
        lo <= hi <= v@.len(),
    ensures
        lo <= r.0 <= r.1 <= hi,
        v@.subrange(r.0 as int, r.1 as int) == trim(v@.subrange(lo as int, hi as int)),
{
    let mut a: usize = lo;
    while a < hi && is_whitespace(v[a])
        invariant
            lo <= a <= hi <= v@.len(),
            trim_start(v@.subrange(lo as int, hi as int)) == trim_start(
                v@.subrange(a as int, hi as int),
            ),
        decreases hi - a,
    {
        assert(v@.subrange(a as int, hi as int).drop_first() =~= v@.subrange(
            a + 1,
            hi as int,
        ));
        a = a + 1;
    }
    assert(trim_start(v@.subrange(a as int, hi as int)) == v@.subrange(a as int, hi as int));
    let mut b: usize = hi;
    while b > a && is_whitespace(v[b - 1])
        invariant
            lo <= a <= b <= hi <= v@.len(),
            trim(v@.subrange(lo as int, hi as int)) == trim_end(v@.subrange(a as int, b as int)),
        decreases b - a,
    {
        assert(v@.subrange(a as int, b as int).drop_last() =~= v@.subrange(
            a as int,
            b - 1,
        ));
        b = b - 1;
    }
    (a, b)
}

/// The field that `v[lo..hi]` stands for.
pub fn clean_range(v: &Vec<char>, lo: usize, hi: usize) -> (r: String)
    requires
        lo <= hi <= v@.len(),
    ensures
        r@ == clean_field(v@.subrange(lo as int, hi as int)),
{
    let (a, b) = trim_range(v, lo, hi);
    let mut a = a;
    let mut b = b;
    let ghost t = v@.subrange(a as int, b as int);
    if a < b && v[a] == '"' {
        assert(t.drop_first() =~= v@.subrange(a + 1, b as int));
        a = a + 1;
    }
    let ghost u = v@.subrange(a as int, b as int);
    if a < b && v[b - 1] == '"' {
        assert(u.drop_last() =~= v@.subrange(a as int, b - 1));
        b = b - 1;
    }
    assert(v@.subrange(a as int, b as int) == unquote(t));
    let (c, d) = trim_range(v, a, b);
    string_of(v, c, d)
}

/// Whether `delim` starts at position `i` of `v[..hi]`.
fn delim_at(v: &Vec<char>, i: usize, hi: usize, delim: &Vec<char>) -> (r: bool)
    requires
        i <= hi <= v@.len(),
    ensures
        r == occurs_at(v@.subrange(i as int, hi as int), delim@, 0),
{
    let n = delim.len();
    if n == 0 || n > hi - i {
        return false;
    }
    let mut k: usize = 0;
    while k < n
        invariant
            0 < n == delim@.len() <= hi - i,
            i <= hi <= v@.len(),
            k <= n,
            forall|j: int| 0 <= j < k ==> v@[i + j] == delim@[j],
        decreases n - k,
    {
        if v[i + k] != delim[k] {
            assert(v@.subrange(i as int, hi as int).subrange(0, n as int)[k as int] != delim@[k as int]);
            return false;
        }
        k = k + 1;
    }
    assert(v@.subrange(i as int, hi as int).subrange(0, n as int) =~= delim@);
    true
}

/// The fields of the line `v[lo..hi]`.
pub fn split_line(v: &Vec<char>, lo: usize, hi: usize, delim: &Vec<char>) -> (r: Vec<String>)
    requires
        lo <= hi <= v@.len(),
    ensures
        views(r@) == fields_of(v@.subrange(lo as int, hi as int), delim@),
{
    let mut out: Vec<String> = Vec::new();
    let ghost mut raw: Seq<Seq<char>> = Seq::empty();
    let ghost whole = split_on(v@.subrange(lo as int, hi as int), delim@);
    let mut start: usize = lo;
    let mut i: usize = lo;
    proof {
        lemma_split_on_nonempty(v@.subrange(lo as int, hi as int), delim@);
        assert(v@.subrange(lo as int, lo as int) =~= Seq::<char>::empty());
        let t = split_on(v@.subrange(lo as int, hi as int), delim@);
        assert(t.update(0, Seq::<char>::empty() + t[0]) =~= t);
        assert(raw + seq![Seq::<char>::empty() + t[0]] + t.drop_first() =~= t);
    }
    while i < hi
        invariant
            lo <= start <= i <= hi <= v@.len(),
            split_on(v@.subrange(i as int, hi as int), delim@).len() >= 1,
            whole == raw + seq![
                v@.subrange(start as int, i as int) + split_on(
                    v@.subrange(i as int, hi as int),
                    delim@,
                )[0],
            ] + split_on(v@.subrange(i as int, hi as int), delim@).drop_first(),
            views(out@) == raw.map_values(|f: Seq<char>| clean_field(f)),
        decreases hi - i,
    {
        let ghost t = v@.subrange(i as int, hi as int);
        if delim_at(v, i, hi, delim) {
            let f = clean_range(v, start, i);
            let ghost old_raw = raw;
            let ghost piece = v@.subrange(start as int, i as int);
            let ghost rest = split_on(v@.subrange(i + delim@.len(), hi as int), delim@);
            proof {
                assert(t.subrange(delim@.len() as int, t.len() as int) =~= v@.subrange(
                    i + delim@.len(),
                    hi as int,
                ));
                lemma_split_on_nonempty(v@.subrange(i + delim@.len(), hi as int), delim@);
                raw = raw.push(piece);
                assert(split_on(t, delim@) == seq![Seq::<char>::empty()] + rest);
                assert(v@.subrange(i + delim@.len(), i + delim@.len()) =~= Seq::<char>::empty());
                assert(raw + seq![Seq::<char>::empty() + rest[0]] + rest.drop_first() =~= old_raw
                    + seq![piece + (seq![Seq::<char>::empty()] + rest)[0]] + (seq![
                    Seq::<char>::empty(),
                ] + rest).drop_first());
            }
            let ghost old_out = out@;
            out.push(f);
            assert(views(out@) =~= raw.map_values(|f: Seq<char>| clean_field(f))) by {
                assert(views(out@) =~= views(old_out).push(f@));
                assert(raw.map_values(|f: Seq<char>| clean_field(f)) =~= old_raw.map_values(
                    |f: Seq<char>| clean_field(f),
                ).push(f@));
            }
            i = i + delim.len();
            start = i;
        } else {
            let ghost p = split_on(v@.subrange(i + 1, hi as int), delim@);
            proof {
                assert(t.drop_first() =~= v@.subrange(i + 1, hi as int));
                lemma_split_on_nonempty(v@.subrange(i + 1, hi as int), delim@);
                assert(split_on(t, delim@) == p.update(0, seq![v@[i as int]] + p[0]));
                assert(v@.subrange(start as int, i as int) + (seq![v@[i as int]] + p[0])
                    =~= v@.subrange(start as int, i + 1) + p[0]);
                assert(p.update(0, seq![v@[i as int]] + p[0]).drop_first() =~= p.drop_first());
            }
            i = i + 1;
        }
    }
    let f = clean_range(v, start, hi);
    let ghost old_raw = raw;
    let ghost old_out = out@;
    proof {
        assert(v@.subrange(hi as int, hi as int) =~= Seq::<char>::empty());
        assert(split_on(v@.subrange(hi as int, hi as int), delim@) == seq![Seq::<char>::empty()]);
        assert(v@.subrange(start as int, hi as int) + Seq::<char>::empty() =~= v@.subrange(
            start as int,
            hi as int,
        ));
        raw = raw.push(v@.subrange(start as int, hi as int));
        assert(whole =~= raw);
    }
    out.push(f);
    assert(views(out@) =~= views(old_out).push(f@));
    assert(raw.map_values(|f: Seq<char>| clean_field(f)) =~= old_raw.map_values(
        |f: Seq<char>| clean_field(f),
    ).push(f@));
    out
}

} // verus!
