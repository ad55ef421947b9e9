//! A data row bound to the column names of the header row.
use vstd::prelude::*;
use vstd::string::StringExecFns;

verus! {

/// The mapping that a list of (name, value) pairs describes, a later pair
/// overriding an earlier one with the same name.
pub open spec fn assoc_map(s: Seq<(Seq<char>, Seq<char>)>) -> Map<Seq<char>, Seq<char>>
    decreases s.len(),
{
    if s.len() == 0 {
        Map::empty()
    } else {
        assoc_map(s.drop_last()).insert(s.last().0, s.last().1)
    }
}

/// The pairs that zip the names `names` with the first values of `values`,
/// one per name.
pub open spec fn zip_fields(names: Seq<Seq<char>>, values: Seq<Seq<char>>) -> Seq<
    (Seq<char>, Seq<char>),
> {
    Seq::new(names.len(), |i: int| (names[i], values[i]))
}

/// A pair list with no pair after position `j` named `k` maps `k` as its
/// first `j` pairs do.
pub proof fn lemma_assoc_map_prefix(s: Seq<(Seq<char>, Seq<char>)>, j: int, k: Seq<char>)
    requires
        0 <= j <= s.len(),
        forall|m: int| j <= m < s.len() ==> s[m].0 != k,
    ensures
        assoc_map(s).contains_key(k) == assoc_map(s.take(j)).contains_key(k),
        assoc_map(s).contains_key(k) ==> assoc_map(s)[k] == assoc_map(s.take(j))[k],
    decreases s.len(),
{
    if s.len() > j {
        lemma_assoc_map_prefix(s.drop_last(), j, k);
        assert(s.drop_last().take(j) =~= s.take(j));
    } else {
        assert(s.take(j) =~= s);
    }
}

/// One data row as a mapping from column name to value. It keeps the pairs
/// in column order; where two columns share a name, the later one wins.
#[derive(Debug, Clone, PartialEq, Eq)]
pub struct NamedRecord {
    entries: Vec<(String, String)>,
}

impl View for NamedRecord {
    type V = Map<Seq<char>, Seq<char>>;

    open spec fn view(&self) -> Map<Seq<char>, Seq<char>> {
        assoc_map(self.pairs())
    }
}

impl NamedRecord {
    /// The (name, value) pairs, in column order.
    pub closed spec fn pairs(&self) -> Seq<(Seq<char>, Seq<char>)> {
        self.entries@.map_values(|e: (String, String)| (e.0@, e.1@))
    }

    /// Binds `names[i]` to `values[i]` for each position of `names`.
    pub fn bind(names: &Vec<String>, values: &Vec<String>) -> (r: NamedRecord)
        requires
            names@.len() <= values@.len(),
        ensures
            r.pairs() == zip_fields(
                names@.map_values(|s: String| s@),
                values@.map_values(|s: String| s@),
            ),
    {
        let mut entries: Vec<(String, String)> = Vec::new();
        let mut i: usize = 0;
        while i < names.len()
            invariant
                i <= names@.len() <= values@.len(),
                entries@.len() == i,
                forall|j: int|
                    0 <= j < i ==> entries@[j].0@ == names@[j]@ && entries@[j].1@ == values@[j]@,
            decreases names.len() - i,
        {
            entries.push((names[i].clone(), values[i].clone()));
            i = i + 1;
        }
        let r = NamedRecord { entries };
        assert(r.pairs() =~= zip_fields(
            names@.map_values(|s: String| s@),
            values@.map_values(|s: String| s@),
        ));
        r
    }

    /// The value of the column named `name`, if there is one.
    pub fn get(&self, name: &str) -> (r: Option<&String>)
        ensures
            r is Some <==> self@.contains_key(name@),
            r is Some ==> r->0@ == self@[name@],
    {
        let mut k = String::new();
        k.append(name);
        let ghost s = self.pairs();
        let mut j: usize = self.entries.len();
        while j > 0
            invariant
                j <= self.entries@.len(),
                s == self.pairs(),
                k@ == name@,
                forall|m: int| j <= m < s.len() ==> s[m].0 != k@,
            decreases j,
        {
            if self.entries[j - 1].0 == k {
                proof {
                    lemma_assoc_map_prefix(s, j as int, k@);
                    assert(s.take(j as int).drop_last() =~= s.take(j - 1));
                    assert(s[j - 1] == (self.entries@[j - 1].0@, self.entries@[j - 1].1@));
                    assert(s.take(j as int).last() == s[j - 1]);
                    assert(assoc_map(s.take(j as int)) == assoc_map(s.take(j - 1)).insert(
                        k@,
                        self.entries@[j - 1].1@,
                    ));
                    assert(assoc_map(s).contains_key(k@));
                    assert(self@ == assoc_map(s));
                }
                return Some(&self.entries[j - 1].1);
            }
            j = j - 1;
        }
        proof {
            lemma_assoc_map_prefix(s, 0, k@);
        }
        None
    }

    /// The number of columns bound, counting repeated names each time.
    pub fn len(&self) -> (r: usize)
        ensures
            r == self.pairs().len(),
    {
        self.entries.len()
    }

    /// The (name, value) pairs, in column order.
    pub fn entries(&self) -> (r: &Vec<(String, String)>)
        ensures
            r@.map_values(|e: (String, String)| (e.0@, e.1@)) == self.pairs(),
    {
        &self.entries
    }
}

} // verus!
