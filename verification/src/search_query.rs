//! What a search hands to the regular expressions.
use crate::outside::{regex_escaped, regex_fault};
use crate::text::{decimal_text, lemma_utf8_concat, utf8};
use vstd::prelude::*;

verus! {

pub const SEARCH_REGEX_BYTES: usize = 1048576;

/// A regular expression, whether upper and lower case are alike to it, and the
/// memory that it may take once it is compiled.
#[derive(Clone, Debug, PartialEq, Eq)]
pub struct RegexQuery {
    pub pattern: String,
    pub ignore_case: bool,
    pub size_limit: usize,
}

/// The regular expression that a query stands for.
pub open spec fn search_pattern(query: Seq<char>, regex: bool) -> Seq<char> {
    if regex {
        query
    } else {
        regex_escaped(query)
    }
}

/// What is compiled for a query.
pub fn regex_query(query: &str, regex: bool, case_sensitive: bool) -> (wanted: RegexQuery)
    ensures
        wanted.pattern@ == search_pattern(query@, regex),
        wanted.ignore_case == !case_sensitive,
        wanted.size_limit == 1048576,
{
    let pattern = if regex {
        query.to_owned()
    } else {
        regex::escape(query)
    };
    RegexQuery { pattern, ignore_case: !case_sensitive, size_limit: SEARCH_REGEX_BYTES }
}

/// What is said of an expression that takes more memory than it may.
pub open spec fn size_words(limit: usize) -> Seq<char> {
    "Compiled regex exceeds size limit of "@ + decimal_text(limit as nat) + " bytes."@
}

/// What is said of a query that cannot be compiled: what is wrong with the
/// expression, or, of one that is right, that it takes too much memory.
pub open spec fn compile_words(
    query: Seq<char>,
    regex: bool,
    case_sensitive: bool,
    words: Seq<char>,
) -> bool {
    match regex_fault(search_pattern(query, regex), !case_sensitive) {
        Some(fault) => words == fault,
        None => words == size_words(SEARCH_REGEX_BYTES),
    }
}

/// The expression of a query can be read.
pub open spec fn compiles(query: Seq<char>, regex: bool, case_sensitive: bool) -> bool {
    regex_fault(search_pattern(query, regex), !case_sensitive) is None
}

/// A text has no more characters than bytes, and its expression no more than
/// twice as many.
pub(crate) proof fn lemma_pattern_length(query: Seq<char>, regex: bool)
    ensures
        search_pattern(query, regex).len() <= 2 * utf8(query).len(),
    decreases query.len(),
{
    if query.len() > 0 {
        let front = query.drop_last();
        lemma_pattern_length(front, regex);
        assert(query =~= front + seq![query.last()]);
        lemma_utf8_concat(front, seq![query.last()]);
        assert(utf8(seq![query.last()]).len() >= 1) by {
            reveal_with_fuel(vstd::utf8::encode_utf8, 2);
        }
    }
}

} // verus!
