use vstd::prelude::*;
use crate::model::{is_digit_char, plain_alphabet};

verus! {

/// The alphabet a pattern is read over: which symbols exist, and the order in
/// which a wildcard enumerates them.
pub trait Bag {
    /// The symbols, in wildcard order.
    spec fn alphabet() -> Seq<char>;

    fn has(piece: char) -> (r: bool)
        ensures
            r == Self::alphabet().contains(piece),
    ;

    fn wildcard() -> (r: Vec<char>)
        ensures
            r@ == Self::alphabet(),
    ;
}

/// The seven tetromino pieces.
pub struct Bag7;

impl Bag for Bag7 {
    open spec fn alphabet() -> Seq<char> {
        seq!['T', 'I', 'L', 'J', 'O', 'S', 'Z']
    }

    fn has(piece: char) -> (r: bool) {
        let r = matches!(piece, 'I' | 'J' | 'O' | 'L' | 'Z' | 'S' | 'T');
        proof {
            let a = Self::alphabet();
            assert(a[0] == 'T' && a[1] == 'I' && a[2] == 'L' && a[3] == 'J');
            assert(a[4] == 'O' && a[5] == 'S' && a[6] == 'Z');
            if r {
                assert(a.contains(piece));
            }
        }
        r
    }

    fn wildcard() -> (r: Vec<char>) {
        let r = vec!['T', 'I', 'L', 'J', 'O', 'S', 'Z'];
        assert(r@ =~= Self::alphabet());
        r
    }
}


/// No piece name is a comma, a line break, `p` or a digit, so the text of a
/// parsed pattern over the pieces is its canonical input text.
pub proof fn lemma_bag7_plain()
    ensures
        plain_alphabet(Bag7::alphabet()),
{
    let a = Bag7::alphabet();
    assert forall|c: char| #[trigger] a.contains(c) implies c != ',' && c != '\n' && c != 'p'
        && !is_digit_char(c) by {
        let i = choose|i: int| 0 <= i < a.len() && a[i] == c;
        assert(a[0] == 'T' && a[1] == 'I' && a[2] == 'L' && a[3] == 'J');
        assert(a[4] == 'O' && a[5] == 'S' && a[6] == 'Z');
    }
}

} // verus!
