//! The extraction result: the `(name, value)` pairs of one parsed line,
//! in field order, read as a mapping from field name to extracted text
//! in which later pairs shadow earlier ones of the same name.

use vstd::prelude::*;
use vstd::string::StrSliceExecFns;

verus! {

/// The `(name, value)` views of a sequence of string pairs.
pub open spec fn pairs_view(s: Seq<(String, String)>) -> Seq<(Seq<char>, Seq<char>)> {
    Seq::new(s.len(), |i: int| (s[i].0@, s[i].1@))
}

/// The pairs as a mapping, later insertions shadowing earlier ones.
pub open spec fn pairs_map(s: Seq<(Seq<char>, Seq<char>)>) -> Map<Seq<char>, Seq<char>>
    decreases s.len(),
{
    if s.len() == 0 {
        Map::empty()
    } else {
        pairs_map(s.drop_last()).insert(s.last().0, s.last().1)
    }
}

/// The pair at `idx` is the last one carrying `name`, so the mapping
/// holds its value under `name`.
pub proof fn lemma_pairs_map_found(s: Seq<(Seq<char>, Seq<char>)>, idx: int, name: Seq<char>)
    requires
        0 <= idx < s.len(),
        s[idx].0 == name,
        forall|j: int| idx < j < s.len() ==> (#[trigger] s[j]).0 != name,
    ensures
        pairs_map(s).contains_key(name),
        pairs_map(s)[name] == s[idx].1,
    decreases s.len(),
{
    if idx == s.len() - 1 {
    } else {
        assert(s.last().0 != name);
        lemma_pairs_map_found(s.drop_last(), idx, name);
    }
}

/// No pair carries `name`, so the mapping has no key `name`.
proof fn lemma_pairs_map_absent(s: Seq<(Seq<char>, Seq<char>)>, name: Seq<char>)
    requires
        forall|j: int| 0 <= j < s.len() ==> (#[trigger] s[j]).0 != name,
    ensures
        !pairs_map(s).contains_key(name),
    decreases s.len(),
{
    if s.len() > 0 {
        lemma_pairs_map_absent(s.drop_last(), name);
    }
}

/// One parsed line's extracted fields: `(name, value)` pairs in field
/// order. Built fresh per parse and owned by the caller.
#[derive(Debug, PartialEq)]
pub struct ExtractedRecord {
    pub pairs: Vec<(String, String)>,
}

impl View for ExtractedRecord {
    type V = Seq<(Seq<char>, Seq<char>)>;

    open spec fn view(&self) -> Seq<(Seq<char>, Seq<char>)> {
        pairs_view(self.pairs@)
    }
}

/// Whether `a` and `b` hold the same characters.
fn str_eq(a: &str, b: &str) -> (r: bool)
    ensures
        r == (a@ == b@),
{
    let n = a.unicode_len();
    let m = b.unicode_len();
    if n != m {
        proof {
            if a@ == b@ {
                assert(a@.len() == b@.len());
            }
        }
        return false;
    }
    let mut i: usize = 0;
    while i < n
        invariant
            i <= n,
            n == a@.len(),
            n == b@.len(),
            forall|k: int| 0 <= k < i ==> a@[k] == b@[k],
        decreases n - i,
    {
        if a.get_char(i) != b.get_char(i) {
            return false;
        }
        i = i + 1;
    }
    proof {
        assert(a@ =~= b@);
    }
    true
}

impl ExtractedRecord {
    /// The number of extracted fields.
    pub fn len(&self) -> (r: usize)
        ensures
            r == self@.len(),
    {
        self.pairs.len()
    }

    /// The value extracted for `name`: what the record's mapping holds
    /// under that key, if anything.
    pub fn get(&self, name: &str) -> (r: Option<&String>)
        ensures
            match r {
                Some(v) => pairs_map(self@).contains_key(name@) && pairs_map(self@)[name@] == v@,
                None => !pairs_map(self@).contains_key(name@),
            },
    {
        let n = self.pairs.len();
        let mut i: usize = n;
        while i > 0
            invariant
                i <= n,
                n == self.pairs@.len(),
                forall|j: int| i <= j < n ==> (#[trigger] self@[j]).0 != name@,
            decreases i,
    {
            i = i - 1;
            let entry = &self.pairs[i];
            if str_eq(entry.0.as_str(), name) {
                proof {
                    assert(self@[i as int].0 == name@);
                    lemma_pairs_map_found(self@, i as int, name@);
                }
                return Some(&entry.1);
            }
            proof {
                assert(self@[i as int].0 != name@);
            }
        }
        proof {
            lemma_pairs_map_absent(self@, name@);
        }
        None
    }
}

} // verus!
