//! The keyword table: literal key text to token kind.
use vstd::prelude::*;
use crate::token::TokenType;

verus! {

/// The map that a list of entries stands for: a later entry for a key
/// replaces an earlier one.
pub open spec fn entries_map(s: Seq<(String, TokenType)>) -> Map<Seq<char>, TokenType>
    decreases s.len(),
{
    if s.len() == 0 {
        Map::empty()
    } else {
        entries_map(s.drop_last()).insert(s.last().0@, s.last().1)
    }
}

/// Maps key text to a token kind. Symbol keys are single characters matched
/// verbatim; word keys are stored lower-case, since the scanner folds a word
/// before it looks it up.
pub struct KeywordTable {
    entries: Vec<(String, TokenType)>,
}

impl View for KeywordTable {
    type V = Map<Seq<char>, TokenType>;

    closed spec fn view(&self) -> Map<Seq<char>, TokenType> {
        entries_map(self.entries@)
    }
}

impl KeywordTable {
    /// A table with no entries.
    pub fn new() -> (r: Self)
        ensures
            r@ == Map::<Seq<char>, TokenType>::empty(),
    {
        KeywordTable { entries: Vec::new() }
    }

    /// Maps `key` to `kind`, replacing any earlier entry for `key`.
    pub fn insert(&mut self, key: &str, kind: TokenType)
        ensures
            final(self)@ == old(self)@.insert(key@, kind),
    {
        let k = key.to_owned();
        self.entries.push((k, kind));
        assert(self.entries@.drop_last() == old(self).entries@);
    }

    /// The kind that `key` maps to, if any.
    pub fn get(&self, key: &String) -> (r: Option<TokenType>)
        ensures
            r == (if self@.contains_key(key@) {
                Some(self@[key@])
            } else {
                None::<TokenType>
            }),
    {
        let ghost s = self.entries@;
        let mut i: usize = self.entries.len();
        assert(s.take(i as int) == s);
        while i > 0
            invariant
                i <= s.len(),
                s == self.entries@,
                entries_map(s).contains_key(key@) == entries_map(s.take(i as int)).contains_key(key@),
                entries_map(s).contains_key(key@) ==> entries_map(s)[key@] == entries_map(
                    s.take(i as int),
                )[key@],
            decreases i,
        {
            assert(s.take(i as int).drop_last() == s.take(i - 1));
            let e = &self.entries[i - 1];
            if e.0 == *key {
                return Some(e.1);
            }
            i = i - 1;
        }
        assert(s.take(0) == Seq::<(String, TokenType)>::empty());
        None
    }
}

} // verus!
