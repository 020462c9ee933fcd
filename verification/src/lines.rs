//! A single loaded line as a vector of characters: the character-indexed
//! line representation used by the chunk line iterator.
use vstd::prelude::*;

verus! {

pub struct LoadedLine {
    chars: Vec<char>,
}

impl View for LoadedLine {
    type V = Seq<char>;

    closed spec fn view(&self) -> Seq<char> {
        self.chars@
    }
}

impl LoadedLine {
    pub fn empty() -> (r: LoadedLine)
        ensures
            r@ == Seq::<char>::empty(),
    {
        LoadedLine { chars: Vec::new() }
    }

    pub fn new(chars: &[char]) -> (r: LoadedLine)
        ensures
            r@ == chars@,
    {
        let mut v: Vec<char> = Vec::new();
        v.extend_from_slice(chars);
        proof {
            assert(v@ =~= chars@);
        }
        LoadedLine { chars: v }
    }

    pub fn from_vec(chars: Vec<char>) -> (r: LoadedLine)
        ensures
            r@ == chars@,
    {
        LoadedLine { chars }
    }

    pub fn len(&self) -> (r: usize)
        ensures
            r == self@.len(),
    {
        self.chars.len()
    }

    pub fn push(&mut self, c: char)
        ensures
            final(self)@ == old(self)@.push(c),
    {
        self.chars.push(c);
    }

    pub fn insert(&mut self, index: usize, c: char)
        requires
            index <= old(self)@.len(),
        ensures
            final(self)@ == old(self)@.insert(index as int, c),
    {
        self.chars.insert(index, c);
    }

    pub fn remove(&mut self, index: usize)
        requires
            index < old(self)@.len(),
        ensures
            final(self)@ == old(self)@.remove(index as int),
    {
        self.chars.remove(index);
    }

    pub fn extend(&mut self, line: LoadedLine)
        ensures
            final(self)@ == old(self)@ + line@,
    {
        let mut other = line;
        self.chars.append(&mut other.chars);
    }

    /// Overwrites the character at `index`.
    pub fn char_set(&mut self, index: usize, c: char)
        requires
            index < old(self)@.len(),
        ensures
            final(self)@ == old(self)@.update(index as int, c),
    {
        self.chars.set(index, c);
    }

    pub fn char_get(&self, index: usize) -> (r: Option<&char>)
        ensures
            index < self@.len() ==> (r matches Some(c) && *c == self@[index as int]),
            index >= self@.len() ==> r is None,
    {
        if index < self.chars.len() {
            Some(&self.chars[index])
        } else {
            None
        }
    }

    pub fn split_off(&mut self, x: usize) -> (r: Vec<char>)
        requires
            x <= old(self)@.len(),
        ensures
            final(self)@ == old(self)@.subrange(0, x as int),
            r@ == old(self)@.subrange(x as int, old(self)@.len() as int),
    {
        self.chars.split_off(x)
    }

    /// A copy of the line's characters, oldest first.
    pub fn chars_iter(&self) -> (r: Vec<char>)
        ensures
            r@ == self@,
    {
        let v = self.chars.clone();
        proof {
            assert(v@ =~= self@);
        }
        v
    }
}

} // verus!
