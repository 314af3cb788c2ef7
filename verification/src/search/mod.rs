//! Line-scoped substring search: the algorithms and their registry.
pub mod brute_force;
pub mod horspool;
pub mod model;

use vstd::prelude::*;
use vstd::string::*;
use vstd::utf8::*;

pub use brute_force::Bf;
pub use horspool::Bmh;
use model::search_spec;

verus! {

/// One matching line: its 1-based number and its text.
#[derive(Debug, PartialEq, Eq, Clone)]
pub struct Match {
    pub line_number: u64,
    pub line: String,
}

/// What `String::from_utf8_lossy` makes of a byte sequence.
pub uninterp spec fn lossy_text(bytes: Seq<u8>) -> Seq<char>;

/// `String::from_utf8_lossy`, owned. Trusted: the result is the function's
/// decoding of `bytes`, and for valid UTF-8 it is the plain decoding (std
/// documents that valid input comes back unchanged). How invalid sequences are
/// replaced is left to the name.
#[verifier::external_body]
pub(crate) fn line_text(bytes: &[u8]) -> (text: String)
    ensures
        text@ == lossy_text(bytes@),
        valid_utf8(bytes@) ==> text@ == decode_utf8(bytes@),
{
    String::from_utf8_lossy(bytes).into_owned()
}

/// `m` is the match described by the pair (line number, line bytes): its text
/// is the line decoded, with invalid UTF-8 replaced as
/// `String::from_utf8_lossy` does, so a valid line comes back unchanged.
pub open spec fn match_is(m: Match, expected: (int, Seq<u8>)) -> bool {
    &&& m.line_number == expected.0
    &&& m.line@ == lossy_text(expected.1)
    &&& valid_utf8(expected.1) ==> m.line@ == decode_utf8(expected.1)
}

/// `found` lists exactly the matches described by `expected`, in order.
pub open spec fn matches_are(found: Seq<Match>, expected: Seq<(int, Seq<u8>)>) -> bool {
    &&& found.len() == expected.len()
    &&& forall|k: int| 0 <= k < found.len() ==> match_is(#[trigger] found[k], expected[k])
}

/// A line-scoped search: every implementation reports exactly the lines of
/// `buf` that contain `word`, numbered from 1, in order, so any two agree.
pub trait SearchAlgorithm {
    /// The code by which the algorithm is chosen.
    spec fn code(&self) -> Seq<char>;

    fn search(&self, word: &str, buf: &[u8]) -> (found: Vec<Match>)
        ensures
            matches_are(found@, search_spec(word.spec_bytes(), buf@)),
    ;
}

/// Any two results that meet the search contract for the same word and buffer
/// report the same line numbers and the same texts: every implementation of
/// `SearchAlgorithm` agrees with every other.
pub proof fn lemma_algorithms_agree(
    a: Seq<Match>,
    b: Seq<Match>,
    word: Seq<u8>,
    buf: Seq<u8>,
)
    requires
        matches_are(a, search_spec(word, buf)),
        matches_are(b, search_spec(word, buf)),
    ensures
        a.len() == b.len(),
        forall|k: int|
            0 <= k < a.len() ==> (#[trigger] a[k]).line_number == b[k].line_number && a[k].line@
                == b[k].line@,
{
    assert forall|k: int| 0 <= k < a.len() implies (#[trigger] a[k]).line_number
        == b[k].line_number && a[k].line@ == b[k].line@ by {
        assert(match_is(a[k], search_spec(word, buf)[k]));
        assert(match_is(b[k], search_spec(word, buf)[k]));
    }
}

/// The codes of the available algorithms, in listing order.
pub open spec fn algorithm_codes() -> Seq<Seq<char>> {
    seq!["bf"@, "bmh"@]
}

/// `code` names an available algorithm.
pub open spec fn is_algorithm_code(code: Seq<char>) -> bool {
    code == "bf"@ || code == "bmh"@
}

/// The (code, name) listing: `bf` is brute force, `bmh` Boyer-Moore-Horspool.
pub open spec fn is_algorithm_listing(listing: Seq<(&str, &str)>) -> bool {
    &&& listing.len() == algorithm_codes().len()
    &&& forall|i: int| 0 <= i < listing.len() ==> (#[trigger] listing[i]).0@ == algorithm_codes()[i]
    &&& listing[0].1@ == "brute force"@
    &&& listing[1].1@ == "boyer-moore-horspool"@
}

/// The two strings hold the same characters.
fn same_text(a: &str, b: &str) -> (same: bool)
    ensures
        same == (a@ == b@),
{
    let x = a.as_bytes();
    let y = b.as_bytes();
    proof {
        encode_utf8_decode_utf8(a@);
        encode_utf8_decode_utf8(b@);
    }
    if x.len() != y.len() {
        return false;
    }
    let mut k: usize = 0;
    while k < x.len()
        invariant
            x@ == a.spec_bytes(),
            y@ == b.spec_bytes(),
            decode_utf8(a.spec_bytes()) == a@,
            decode_utf8(b.spec_bytes()) == b@,
            x@.len() == y@.len(),
            k <= x@.len(),
            forall|j: int| 0 <= j < k ==> x@[j] == y@[j],
        decreases x@.len() - k,
    {
        if x[k] != y[k] {
            assert(x@ != y@);
            return false;
        }
        k = k + 1;
    }
    assert(x@ =~= y@);
    true
}

/// The algorithm with the given code, if there is one.
pub fn find_algorithm(code: &str) -> (alg: Option<Box<dyn SearchAlgorithm>>)
    ensures
        alg.is_some() == is_algorithm_code(code@),
        alg matches Some(a) ==> a.code() == code@,
{
    if same_text(code, "bf") {
        Some(Box::new(Bf))
    } else if same_text(code, "bmh") {
        Some(Box::new(Bmh))
    } else {
        None
    }
}

/// The available algorithms as (code, name) pairs.
pub fn list_algorithms() -> (listing: &'static [(&'static str, &'static str)])
    ensures
        is_algorithm_listing(listing@),
{
    let listing: &'static [(&'static str, &'static str)] = &[
        ("bf", "brute force"),
        ("bmh", "boyer-moore-horspool"),
    ];
    listing
}

/// `n` spaces.
pub open spec fn spaces(n: int) -> Seq<char>
    decreases n,
{
    if n <= 0 {
        Seq::empty()
    } else {
        spaces(n - 1).push(' ')
    }
}

/// The width the code column is padded to in the listing.
pub const CODE_COLUMN: usize = 6usize;

/// One line of the algorithm listing: the code, padded with spaces to the
/// code column's width, a space, and the name.
pub fn listing_line(code: &str, name: &str) -> (line: String)
    ensures
        line@ == code@ + spaces(CODE_COLUMN - code@.len()) + " "@ + name@,
{
    let mut line = String::from_str(code);
    let width = code.unicode_len();
    let mut k = width;
    proof {
        assert(code@ + spaces(0) =~= code@);
    }
    while k < CODE_COLUMN
        invariant
            width == code@.len(),
            width <= k <= CODE_COLUMN || (k == width && width > CODE_COLUMN),
            line@ == code@ + spaces(k - width),
        decreases CODE_COLUMN - k,
    {
        line.append(" ");
        proof {
            reveal_strlit(" ");
            assert(code@ + spaces(k - width) + " "@ =~= code@ + spaces(k + 1 - width));
        }
        k = k + 1;
    }
    proof {
        if width > CODE_COLUMN {
            assert(spaces(CODE_COLUMN - code@.len()) == Seq::<char>::empty());
        }
    }
    line.append(" ");
    line.append(name);
    line
}

/// Every listed algorithm can be found by its code.
pub proof fn lemma_listed_algorithms_are_findable(listing: Seq<(&str, &str)>, i: int)
    requires
        is_algorithm_listing(listing),
        0 <= i < listing.len(),
    ensures
        is_algorithm_code(listing[i].0@),
{
    assert(listing[i].0@ == algorithm_codes()[i]);
}

} // verus!
