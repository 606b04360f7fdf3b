use vstd::prelude::*;

verus! {

/// A known-correct term together with its frequency score; a higher score is preferred.
#[derive(Debug, Clone)]
pub struct Word {
    pub word: String,
    pub score: u64,
}

impl Word {
    pub fn new(word: &str, count: u64) -> (r: Word)
        ensures
            r.word@ == word@,
            r.score == count,
    {
        Word { word: word.to_owned(), score: count }
    }
}

} // verus!
