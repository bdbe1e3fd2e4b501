//! The text by which two states of a grid are compared: the candidate masks of the 81 cells
//! as decimal numbers, column by column, with a stroke between them.

use super::board::{Board, board_wf};
use vstd::prelude::*;
use vstd::string::StringExecFns;

verus! {

/// The character of the decimal digit `d`.
pub open spec fn digit_char(d: int) -> char {
    if d == 0 {
        '0'
    } else if d == 1 {
        '1'
    } else if d == 2 {
        '2'
    } else if d == 3 {
        '3'
    } else if d == 4 {
        '4'
    } else if d == 5 {
        '5'
    } else if d == 6 {
        '6'
    } else if d == 7 {
        '7'
    } else if d == 8 {
        '8'
    } else {
        '9'
    }
}

/// A number below 1000 in decimal, without leading zeros.
pub open spec fn decimal(m: u16) -> Seq<char> {
    if m >= 100 {
        seq![digit_char(m as int / 100), digit_char(m as int / 10 % 10), digit_char(m as int % 10)]
    } else if m >= 10 {
        seq![digit_char(m as int / 10), digit_char(m as int % 10)]
    } else {
        seq![digit_char(m as int)]
    }
}

/// The text for the cells from `k` on.
pub open spec fn hash_from(b: Board, k: int) -> Seq<char>
    decreases 81 - k,
{
    if k >= 81 {
        Seq::empty()
    } else if k == 80 {
        decimal(b[k].bits())
    } else {
        decimal(b[k].bits()) + seq!['/'] + hash_from(b, k + 1)
    }
}

/// The text for the whole grid.
pub open spec fn hash_of(b: Board) -> Seq<char> {
    hash_from(b, 0)
}

/// The text of one decimal digit.
fn digit_str(d: u16) -> (r: &'static str)
    requires
        d < 10,
    ensures
        r@ == seq![digit_char(d as int)],
{
    proof {
        reveal_strlit("0");
        reveal_strlit("1");
        reveal_strlit("2");
        reveal_strlit("3");
        reveal_strlit("4");
        reveal_strlit("5");
        reveal_strlit("6");
        reveal_strlit("7");
        reveal_strlit("8");
        reveal_strlit("9");
    }
    let r = if d == 0 {
        "0"
    } else if d == 1 {
        "1"
    } else if d == 2 {
        "2"
    } else if d == 3 {
        "3"
    } else if d == 4 {
        "4"
    } else if d == 5 {
        "5"
    } else if d == 6 {
        "6"
    } else if d == 7 {
        "7"
    } else if d == 8 {
        "8"
    } else {
        "9"
    };
    assert(r@ =~= seq![digit_char(d as int)]);
    r
}

/// Appends a number below 1000 in decimal.
pub fn append_decimal(s: &mut String, m: u16)
    requires
        m < 1000,
    ensures
        final(s)@ == old(s)@ + decimal(m),
{
    if m >= 100 {
        s.append(digit_str(m / 100));
        s.append(digit_str(m / 10 % 10));
        s.append(digit_str(m % 10));
    } else if m >= 10 {
        s.append(digit_str(m / 10));
        s.append(digit_str(m % 10));
    } else {
        s.append(digit_str(m));
    }
    assert(s@ =~= old(s)@ + decimal(m));
}

/// Appends the stroke that stands between two numbers.
pub fn append_stroke(s: &mut String)
    ensures
        final(s)@ == old(s)@ + seq!['/'],
{
    proof {
        reveal_strlit("/");
    }
    s.append("/");
    assert(s@ =~= old(s)@ + seq!['/']);
}

/// Every cell has the same candidate mask in both grids.
pub open spec fn same_masks(a: Board, b: Board) -> bool {
    a.len() == 81 && b.len() == 81 && forall|k: int|
        #![trigger a[k]]
        #![trigger b[k]]
        0 <= k < 81 ==> a[k].bits() == b[k].bits()
}

/// What follows a number in the text: nothing, or a stroke and more.
pub open spec fn is_tail(r: Seq<char>) -> bool {
    r.len() == 0 || r[0] == '/'
}

/// A number and what follows it can be read off the text in one way only.
pub proof fn lemma_decimal_unique(x: u16, y: u16, r1: Seq<char>, r2: Seq<char>)
    requires
        x < 1000,
        y < 1000,
        is_tail(r1),
        is_tail(r2),
        decimal(x) + r1 == decimal(y) + r2,
    ensures
        x == y,
        r1 == r2,
{
    let dx = decimal(x);
    let dy = decimal(y);
    let left = dx + r1;
    let right = dy + r2;
    assert(forall|d: int| 0 <= d <= 9 ==> #[trigger] digit_char(d) != '/');
    assert(forall|d: int, e: int|
        0 <= d <= 9 && 0 <= e <= 9 && #[trigger] digit_char(d) == #[trigger] digit_char(e) ==> d
            == e);
    assert(left.len() == right.len());
    if dx.len() < dy.len() {
        let n = dx.len() as int;
        assert(right[n] == dy[n]);
        if r1.len() > 0 {
            assert(left[n] == r1[0]);
        }
        assert(false);
    }
    if dy.len() < dx.len() {
        let n = dy.len() as int;
        assert(left[n] == dx[n]);
        if r2.len() > 0 {
            assert(right[n] == r2[0]);
        }
        assert(false);
    }
    assert(left[0] == dx[0] && right[0] == dy[0]);
    if dx.len() >= 2 {
        assert(left[1] == dx[1] && right[1] == dy[1]);
    }
    if dx.len() >= 3 {
        assert(left[2] == dx[2] && right[2] == dy[2]);
    }
    assert(x == y);
    assert(r1 =~= left.subrange(dx.len() as int, left.len() as int));
    assert(r2 =~= right.subrange(dy.len() as int, right.len() as int));
}

/// Two valid grids with the same text from cell `k` on have the same masks from cell `k` on.
pub proof fn lemma_hash_from_unique(a: Board, b: Board, k: int)
    requires
        board_wf(a),
        board_wf(b),
        0 <= k <= 81,
        hash_from(a, k) == hash_from(b, k),
    ensures
        forall|n: int| k <= n < 81 ==> (#[trigger] a[n]).bits() == b[n].bits(),
    decreases 81 - k,
{
    if k < 81 {
        let x = a[k].bits();
        let y = b[k].bits();
        lemma_bits_small(a, k);
        lemma_bits_small(b, k);
        if k == 80 {
            lemma_decimal_unique(x, y, Seq::empty(), Seq::empty());
            assert(decimal(x) + Seq::<char>::empty() =~= decimal(x));
            assert(decimal(y) + Seq::<char>::empty() =~= decimal(y));
        } else {
            let r1 = seq!['/'] + hash_from(a, k + 1);
            let r2 = seq!['/'] + hash_from(b, k + 1);
            assert(hash_from(a, k) =~= decimal(x) + r1);
            assert(hash_from(b, k) =~= decimal(y) + r2);
            lemma_decimal_unique(x, y, r1, r2);
            assert(hash_from(a, k + 1) =~= r1.subrange(1, r1.len() as int));
            assert(hash_from(b, k + 1) =~= r2.subrange(1, r2.len() as int));
            lemma_hash_from_unique(a, b, k + 1);
        }
    }
}

/// The mask of a cell of a valid grid is below 512.
proof fn lemma_bits_small(a: Board, k: int)
    requires
        board_wf(a),
        0 <= k < 81,
    ensures
        a[k].bits() < 512,
{
    if a[k].filled() {
        crate::bits::lemma_single_count((a[k]->Filled_0 - 1) as u16);
    }
}

/// Two valid grids have the same text exactly when every cell has the same mask in both.
pub proof fn lemma_hash_unique(a: Board, b: Board)
    requires
        board_wf(a),
        board_wf(b),
    ensures
        hash_of(a) == hash_of(b) <==> same_masks(a, b),
{
    if hash_of(a) == hash_of(b) {
        lemma_hash_from_unique(a, b, 0);
    }
    if same_masks(a, b) {
        lemma_hash_from_same(a, b, 0);
    }
}

/// Two grids with the same masks have the same text.
proof fn lemma_hash_from_same(a: Board, b: Board, k: int)
    requires
        same_masks(a, b),
        0 <= k <= 81,
    ensures
        hash_from(a, k) == hash_from(b, k),
    decreases 81 - k,
{
    if k < 81 {
        assert(a[k].bits() == b[k].bits());
        lemma_hash_from_same(a, b, k + 1);
    }
}

} // verus!
