//! A fixed list of English words.
use vstd::prelude::*;

verus! {

/// The words of the list, in order.
pub open spec fn word_list() -> Seq<Seq<char>> {
    seq![
            "aaaarrrrgggghhhh"@,
            "aaargh"@,
            "aardvark"@,
            "aardvarks"@,
            "aardwolf"@,
            "abacus"@,
            "abandon"@,
            "abandoned"@,
            "abandoning"@,
            "abandonment"@,
            "abandons"@,
            "abase"@,
            "abate"@,
            "abated"@,
            "abatement"@,
            "abating"@,
            "abattoir"@,
            "abattoirs"@,
            "abbacy"@,
            "abberation"@,
            "abbey"@,
    ]
}

/// A list of English words in alphabetical order.
pub struct Dictionary {
    pub dictionary: Vec<String>,
}

impl Dictionary {
    /// The list of the words of `word_list`.
    pub fn new() -> (d: Dictionary)
        ensures
            d.dictionary@.map_values(|w: String| w@) == word_list(),
    {
        let mut dictionary: Vec<String> = Vec::new();
        dictionary.push("aaaarrrrgggghhhh".to_owned());
        dictionary.push("aaargh".to_owned());
        dictionary.push("aardvark".to_owned());
        dictionary.push("aardvarks".to_owned());
        dictionary.push("aardwolf".to_owned());
        dictionary.push("abacus".to_owned());
        dictionary.push("abandon".to_owned());
        dictionary.push("abandoned".to_owned());
        dictionary.push("abandoning".to_owned());
        dictionary.push("abandonment".to_owned());
        dictionary.push("abandons".to_owned());
        dictionary.push("abase".to_owned());
        dictionary.push("abate".to_owned());
        dictionary.push("abated".to_owned());
        dictionary.push("abatement".to_owned());
        dictionary.push("abating".to_owned());
        dictionary.push("abattoir".to_owned());
        dictionary.push("abattoirs".to_owned());
        dictionary.push("abbacy".to_owned());
        dictionary.push("abberation".to_owned());
        dictionary.push("abbey".to_owned());
        let d = Dictionary { dictionary };
        assert(d.dictionary@.map_values(|w: String| w@) =~= word_list());
        d
    }
}

} // verus!
