use vstd::prelude::*;

verus! {

/// The map that a list of entries stands for: a later entry overrides an
/// earlier one with the same key.
pub open spec fn entries_map(e: Seq<(String, String)>) -> Map<Seq<char>, Seq<char>>
    decreases e.len(),
{
    if e.len() == 0 {
        Map::empty()
    } else {
        entries_map(e.drop_last()).insert(e.last().0@, e.last().1@)
    }
}

proof fn lemma_entries_map_skip(e: Seq<(String, String)>, i: int, k: Seq<char>)
    requires
        0 <= i <= e.len(),
        forall|j: int| i <= j < e.len() ==> (#[trigger] e[j]).0@ != k,
    ensures
        entries_map(e).contains_key(k) == entries_map(e.subrange(0, i)).contains_key(k),
        entries_map(e)[k] == entries_map(e.subrange(0, i))[k],
    decreases e.len() - i,
{
    if i < e.len() {
        let f = e.drop_last();
        assert(f.subrange(0, i) =~= e.subrange(0, i));
        lemma_entries_map_skip(f, i, k);
    } else {
        assert(e.subrange(0, i) =~= e);
    }
}

/// A case-sensitive mapping from words to their replacements. Lookups are
/// made with lowercase words, so the keys that can match are lowercase.
pub struct Dictionary {
    entries: Vec<(String, String)>,
}

impl View for Dictionary {
    type V = Map<Seq<char>, Seq<char>>;

    closed spec fn view(&self) -> Map<Seq<char>, Seq<char>> {
        entries_map(self.entries@)
    }
}

impl Dictionary {
    pub fn new() -> (r: Dictionary)
        ensures
            r@ == Map::<Seq<char>, Seq<char>>::empty(),
    {
        Dictionary { entries: Vec::new() }
    }

    /// Maps `key` to `value`, replacing what `key` mapped to before.
    pub fn insert(&mut self, key: String, value: String)
        ensures
            final(self)@ == old(self)@.insert(key@, value@),
    {
        let ghost before = self.entries@;
        self.entries.push((key, value));
        assert(self.entries@.drop_last() =~= before);
    }

    /// The replacement of `key`, if it has one.
    pub fn get(&self, key: &String) -> (r: Option<&String>)
        ensures
            match r {
                Some(v) => self@.contains_key(key@) && v@ == self@[key@],
                None => !self@.contains_key(key@),
            },
    {
        let mut i: usize = self.entries.len();
        while i > 0
            invariant
                i <= self.entries@.len(),
                forall|j: int| i <= j < self.entries@.len() ==> (#[trigger] self.entries@[j]).0@
                    != key@,
            decreases i,
        {
            let entry = &self.entries[i - 1];
            if entry.0.eq(key) {
                proof {
                    let e = self.entries@;
                    lemma_entries_map_skip(e, i as int, key@);
                    let p = e.subrange(0, i as int);
                    assert(p.drop_last().len() == i - 1);
                    assert(p.last() == e[i - 1]);
                }
                return Some(&entry.1);
            }
            i = i - 1;
        }
        proof {
            lemma_entries_map_skip(self.entries@, 0, key@);
            assert(self.entries@.subrange(0, 0) =~= Seq::<(String, String)>::empty());
        }
        None
    }
}

} // verus!
