//! The rail fence cipher: text written in a zig-zag over a number of rails
//! and read off rail by rail.

use vstd::prelude::*;
use crate::error::Error;
use crate::text::{chars_of, string_of};

verus! {

// The model.

/// The rail on which position `p` of a text lies when it is written in a
/// zig-zag over `rows` rails. With `period = 2 * rows - 2` the zig-zag
/// repeats every `period` positions, going down for the first half and up
/// for the second. A single rail holds every position.
pub open spec fn rail_row(rows: int, p: int) -> int {
    if rows <= 1 {
        0
    } else {
        let period = 2 * rows - 2;
        let m = p % period;
        if m <= period / 2 {
            m
        } else {
            period - m
        }
    }
}

/// The positions below `n` that lie on rail `r`, in ascending order.
pub open spec fn rail_positions(rows: int, r: int, n: int) -> Seq<int>
    decreases n,
{
    if n <= 0 {
        Seq::empty()
    } else if rail_row(rows, n - 1) == r {
        rail_positions(rows, r, n - 1).push(n - 1)
    } else {
        rail_positions(rows, r, n - 1)
    }
}

/// The positions below `len` that lie on the first `r` rails: rail by rail,
/// and ascending within a rail.
pub open spec fn rail_order_upto(rows: int, len: int, r: int) -> Seq<int>
    decreases r,
{
    if r <= 0 {
        Seq::empty()
    } else {
        rail_order_upto(rows, len, r - 1) + rail_positions(rows, r - 1, len)
    }
}

/// The order in which a text of `len` characters is read off `rows` rails:
/// entry `i` is the position of the text that comes out at place `i`.
pub open spec fn rail_order(rows: int, len: int) -> Seq<int> {
    rail_order_upto(rows, len, rows)
}

/// Whether position `a` is read off the rails before position `b`: it lies
/// on an earlier rail, or on the same rail and earlier in the text.
pub open spec fn rail_before(rows: int, a: int, b: int) -> bool {
    rail_row(rows, a) < rail_row(rows, b) || (rail_row(rows, a) == rail_row(rows, b) && a < b)
}

/// The place at which position `p` of a text of `len` characters comes out:
/// behind every position on an earlier rail and every earlier position on
/// its own rail.
pub open spec fn rail_slot(rows: int, len: int, p: int) -> int {
    let r = rail_row(rows, p);
    (rail_order_upto(rows, len, r).len() + rail_positions(rows, r, p).len()) as int
}

/// The text read off the rails.
pub open spec fn rail_encipher(rows: int, text: Seq<char>) -> Seq<char> {
    Seq::new(text.len(), |i: int| text[rail_order(rows, text.len() as int)[i]])
}

/// The text whose reading off the rails is `text`.
pub open spec fn rail_decipher(rows: int, text: Seq<char>) -> Seq<char> {
    Seq::new(text.len(), |p: int| text[rail_slot(rows, text.len() as int, p)])
}

/// The positions that `order` holds, as mathematical integers.
pub open spec fn positions_of(order: Seq<usize>) -> Seq<int> {
    order.map_values(|p: usize| p as int)
}

// The cipher.

/// A rail fence cipher with a fixed number of rails.
#[derive(Debug)]
pub struct RailFence {
    key: usize,
}

impl RailFence {
    #[verifier::type_invariant]
    spec fn has_a_rail(self) -> bool {
        self.key >= 1
    }

    /// The number of rails.
    pub closed spec fn rows(&self) -> int {
        self.key as int
    }

    /// A cipher with `key` rails. A fence needs at least one rail: a key of
    /// zero is refused.
    pub fn new(key: usize) -> (r: Result<RailFence, Error>)
        ensures
            key == 0 ==> (r matches Err(e) && e == Error::InvalidKey),
            key != 0 ==> (r matches Ok(cipher) && cipher.rows() == key),
    {
        if key == 0 {
            Err(Error::InvalidKey)
        } else {
            Ok(RailFence { key })
        }
    }

    /// The text read off the rails: the characters of the first rail, then
    /// those of the second, and so on, each rail in the order of the text.
    /// Every text can be enciphered, and keeps its length.
    pub fn encipher(&self, plaintext: &str) -> (r: Result<String, Error>)
        ensures
            r matches Ok(ciphertext) && ciphertext@ == rail_encipher(self.rows(), plaintext@)
                && ciphertext@.len() == plaintext@.len(),
    {
        proof {
            use_type_invariant(self);
        }
        if self.key == 1 {
            proof {
                lemma_rail_single_row_is_identity(plaintext@);
            }
            return Ok(plaintext.to_owned());
        }
        let text = chars_of(plaintext);
        let order = self.calculate_order(plaintext).unwrap();
        proof {
            lemma_rail_order_is_permutation(self.rows(), text@.len() as int);
        }
        let mut ciphertext: Vec<char> = Vec::new();
        let mut i: usize = 0;
        while i < order.len()
            invariant
                i <= order.len() == text.len(),
                positions_of(order@) == rail_order(self.rows(), text@.len() as int),
                forall|k: int|
                    0 <= k < order.len() ==> 0 <= #[trigger] rail_order(
                        self.rows(),
                        text@.len() as int,
                    )[k] < text.len(),
                ciphertext@ == rail_encipher(self.rows(), text@).take(i as int),
            decreases order.len() - i,
        {
            let p = order[i];
            assert(p as int == positions_of(order@)[i as int]);
            ciphertext.push(text[p]);
            i += 1;
        }
        Ok(string_of(&ciphertext))
    }

    /// The text that the rails were read off: each character of
    /// `ciphertext` goes back to the position it came from. Every text can
    /// be deciphered, and keeps its length.
    pub fn decipher(&self, ciphertext: &str) -> (r: Result<String, Error>)
        ensures
            r matches Ok(plaintext) && plaintext@ == rail_decipher(self.rows(), ciphertext@)
                && plaintext@.len() == ciphertext@.len(),
    {
        proof {
            use_type_invariant(self);
        }
        if self.key == 1 {
            proof {
                lemma_rail_single_row_is_identity(ciphertext@);
            }
            return Ok(ciphertext.to_owned());
        }
        let text = chars_of(ciphertext);
        let order = self.calculate_order(ciphertext).unwrap();
        let ghost len = text@.len() as int;
        proof {
            lemma_rail_order_is_permutation(self.rows(), len);
        }
        let mut plaintext: Vec<char> = vec![' '; text.len()];
        let mut i: usize = 0;
        while i < text.len()
            invariant
                i <= text.len() == order.len() == plaintext.len(),
                len == text@.len(),
                positions_of(order@) == rail_order(self.rows(), len),
                forall|k: int|
                    0 <= k < len ==> 0 <= #[trigger] rail_order(self.rows(), len)[k] < len,
                forall|j: int, k: int|
                    0 <= j < len && 0 <= k < len && j != k ==> #[trigger] rail_order(
                        self.rows(),
                        len,
                    )[j] != #[trigger] rail_order(self.rows(), len)[k],
                forall|k: int|
                    0 <= k < i ==> plaintext@[#[trigger] rail_order(self.rows(), len)[k]]
                        == text@[k],
            decreases text.len() - i,
        {
            let p = order[i];
            assert(p as int == positions_of(order@)[i as int]);
            plaintext.set(p, text[i]);
            i += 1;
        }
        proof {
            assert forall|p: int| 0 <= p < len implies plaintext@[p] == rail_decipher(
                self.rows(),
                text@,
            )[p] by {
                let k = rail_slot(self.rows(), len, p);
                assert(rail_order(self.rows(), len)[k] == p);
            }
            assert(plaintext@ =~= rail_decipher(self.rows(), text@));
        }
        Ok(string_of(&plaintext))
    }

    /// The rail on which `position` lies: the zig-zag goes down from the
    /// first rail to the last and up again. Every position has a rail.
    pub fn calculate_row(&self, position: usize) -> (r: Result<usize, Error>)
        ensures
            r matches Ok(row) && row == rail_row(self.rows(), position as int),
    {
        proof {
            use_type_invariant(self);
        }
        let turn = self.key - 1;
        if turn == 0 {
            Ok(0)
        } else if turn <= usize::MAX / 2 {
            let period = 2 * turn;
            let m = position % period;
            if m <= turn {
                Ok(m)
            } else {
                Ok(period - m)
            }
        } else {
            // The zig-zag turns only behind the last position a text can have.
            proof {
                vstd::arithmetic::div_mod::lemma_small_mod(position as nat, (2 * turn) as nat);
            }
            if position <= turn {
                Ok(position)
            } else {
                Ok(turn - (position - turn))
            }
        }
    }

    /// The order in which `text` is read off the rails: entry `i` is the
    /// position of the character that comes out at place `i`. The order
    /// depends on the length of the text alone, and has an entry for each
    /// of its positions.
    pub fn calculate_order(&self, text: &str) -> (r: Result<Vec<usize>, Error>)
        ensures
            r matches Ok(order) && positions_of(order@) == rail_order(
                self.rows(),
                text@.len() as int,
            ) && order@.len() == text@.len(),
    {
        proof {
            use_type_invariant(self);
        }
        let length = text.unicode_len();
        let rails = if self.key < length {
            self.key
        } else {
            length
        };
        let mut order: Vec<usize> = Vec::new();
        let mut row: usize = 0;
        while row < rails
            invariant
                row <= rails <= length,
                positions_of(order@) == rail_order_upto(self.rows(), length as int, row as int),
            decreases rails - row,
        {
            let mut p: usize = 0;
            while p < length
                invariant
                    p <= length,
                    row < rails,
                    positions_of(order@) == rail_order_upto(self.rows(), length as int, row as int)
                        + rail_positions(self.rows(), row as int, p as int),
                decreases length - p,
            {
                let ghost before = positions_of(order@);
                if self.calculate_row(p).unwrap() == row {
                    order.push(p);
                    assert(positions_of(order@) =~= before.push(p as int));
                }
                p += 1;
                assert(positions_of(order@) =~= rail_order_upto(
                    self.rows(),
                    length as int,
                    row as int,
                ) + rail_positions(self.rows(), row as int, p as int));
            }
            row += 1;
        }
        proof {
            if self.key >= length {
                lemma_rail_order_beyond(self.rows(), length as int, self.rows());
            }
            lemma_rail_order_len(self.rows(), length as int);
        }
        Ok(order)
    }
}

// What holds of the cipher.

/// Every position lies on one of the rails, and the number of its rail is
/// not above its own.
pub proof fn lemma_rail_row_bounds(rows: int, p: int)
    requires
        rows >= 1,
        p >= 0,
    ensures
        0 <= rail_row(rows, p) < rows,
        rail_row(rows, p) <= p,
{
    if rows > 1 {
        let period = 2 * rows - 2;
        assert(0 <= p % period < period);
        assert(p % period <= p) by {
            vstd::arithmetic::div_mod::lemma_mod_decreases(p as nat, period as nat);
        }
        assert(period / 2 == rows - 1);
    }
}

/// The order in which the rails are read is a permutation of the positions
/// of the text: it has one place for each position, every entry is a
/// position of the text, no position comes out twice, and every position
/// comes out, at the place that `rail_slot` names.
pub proof fn lemma_rail_order_is_permutation(rows: int, len: int)
    requires
        rows >= 1,
        len >= 0,
    ensures
        rail_order(rows, len).len() == len,
        forall|i: int|
            0 <= i < len ==> {
                &&& 0 <= #[trigger] rail_order(rows, len)[i] < len
                &&& rail_slot(rows, len, rail_order(rows, len)[i]) == i
            },
        forall|i: int, j: int|
            0 <= i < len && 0 <= j < len && i != j ==> #[trigger] rail_order(rows, len)[i]
                != #[trigger] rail_order(rows, len)[j],
        forall|p: int|
            0 <= p < len ==> {
                &&& 0 <= #[trigger] rail_slot(rows, len, p) < len
                &&& rail_order(rows, len)[rail_slot(rows, len, p)] == p
            },
{
    let order = rail_order(rows, len);
    lemma_rail_order_len(rows, len);
    lemma_rail_order_upto(rows, len, rows);
    assert forall|i: int, j: int| 0 <= i < len && 0 <= j < len && i != j implies #[trigger] order[i]
        != #[trigger] order[j] by {
        if i < j {
            assert(rail_before(rows, order[i], order[j]));
        } else {
            assert(rail_before(rows, order[j], order[i]));
        }
    }
    assert forall|p: int| 0 <= p < len implies {
        &&& 0 <= #[trigger] rail_slot(rows, len, p) < len
        &&& order[rail_slot(rows, len, p)] == p
    } by {
        lemma_rail_slot(rows, len, p);
    }
    assert forall|i: int| 0 <= i < len implies {
        &&& 0 <= #[trigger] order[i] < len
        &&& rail_slot(rows, len, order[i]) == i
    } by {
        let k = rail_slot(rows, len, order[i]);
        lemma_rail_slot(rows, len, order[i]);
        if k != i {
            assert(order[k] != order[i]);
        }
    }
}

/// The rails are read one after the other, and each in the order of the
/// text: of two places, the earlier holds the position on the earlier rail,
/// or the earlier position of the same rail.
pub proof fn lemma_rail_order_is_sorted(rows: int, len: int)
    requires
        rows >= 1,
        len >= 0,
    ensures
        forall|i: int, j: int|
            0 <= i < j < len ==> rail_before(
                rows,
                #[trigger] rail_order(rows, len)[i],
                #[trigger] rail_order(rows, len)[j],
            ),
{
    lemma_rail_order_len(rows, len);
    lemma_rail_order_upto(rows, len, rows);
}

/// Deciphering undoes enciphering, and enciphering undoes deciphering, for
/// every text and every number of rails.
pub proof fn lemma_rail_round_trip(rows: int, text: Seq<char>)
    requires
        rows >= 1,
    ensures
        rail_decipher(rows, rail_encipher(rows, text)) == text,
        rail_encipher(rows, rail_decipher(rows, text)) == text,
{
    let len = text.len() as int;
    let order = rail_order(rows, len);
    lemma_rail_order_is_permutation(rows, len);
    let there = rail_encipher(rows, text);
    let back = rail_decipher(rows, text);
    assert forall|p: int| 0 <= p < len implies rail_decipher(rows, there)[p] == text[p] by {
        let k = rail_slot(rows, len, p);
        assert(order[k] == p);
        assert(there[k] == text[order[k]]);
    }
    assert(rail_decipher(rows, there) =~= text);
    assert forall|i: int| 0 <= i < len implies rail_encipher(rows, back)[i] == text[i] by {
        let p = order[i];
        assert(rail_slot(rows, len, p) == i);
        assert(back[p] == text[rail_slot(rows, len, p)]);
    }
    assert(rail_encipher(rows, back) =~= text);
}

/// With a single rail the cipher changes nothing, in either direction.
pub proof fn lemma_rail_single_row_is_identity(text: Seq<char>)
    ensures
        rail_encipher(1, text) == text,
        rail_decipher(1, text) == text,
{
    lemma_rail_single_row_order(text.len() as int);
    assert(rail_encipher(1, text) =~= text);
    assert(rail_decipher(1, text) =~= text);
}

/// The cipher keeps the length of the text, in either direction.
pub proof fn lemma_rail_keeps_length(rows: int, text: Seq<char>)
    ensures
        rail_encipher(rows, text).len() == text.len(),
        rail_decipher(rows, text).len() == text.len(),
{
}

// Steps towards the above.

/// What `rail_positions` holds: positions below `n` on rail `r`, ascending.
proof fn lemma_rail_positions(rows: int, r: int, n: int)
    ensures
        rail_positions(rows, r, n).len() <= if n >= 0 { n } else { 0 },
        forall|i: int|
            0 <= i < rail_positions(rows, r, n).len() ==> {
                &&& 0 <= #[trigger] rail_positions(rows, r, n)[i] < n
                &&& rail_row(rows, rail_positions(rows, r, n)[i]) == r
            },
        forall|i: int, j: int|
            0 <= i < j < rail_positions(rows, r, n).len() ==> rail_positions(rows, r, n)[i]
                < rail_positions(rows, r, n)[j],
    decreases n,
{
    if n > 0 {
        lemma_rail_positions(rows, r, n - 1);
    }
}

/// A position on rail `r` stands in `rail_positions` right behind the
/// earlier positions of that rail.
proof fn lemma_rail_positions_index(rows: int, r: int, n: int, p: int)
    requires
        0 <= p < n,
        rail_row(rows, p) == r,
    ensures
        rail_positions(rows, r, p).len() < rail_positions(rows, r, n).len(),
        rail_positions(rows, r, n)[rail_positions(rows, r, p).len() as int] == p,
    decreases n,
{
    if p < n - 1 {
        lemma_rail_positions_index(rows, r, n - 1, p);
    }
}

/// A rail whose number is not below `n` holds no position below `n`.
proof fn lemma_rail_positions_empty(rows: int, r: int, n: int)
    requires
        rows >= 1,
        r >= n,
    ensures
        rail_positions(rows, r, n).len() == 0,
    decreases n,
{
    if n > 0 {
        lemma_rail_row_bounds(rows, n - 1);
        lemma_rail_positions_empty(rows, r, n - 1);
    }
}

/// A single rail holds every position below `n`.
proof fn lemma_rail_positions_whole(n: int)
    requires
        n >= 0,
    ensures
        rail_positions(1, 0, n).len() == n,
    decreases n,
{
    if n > 0 {
        lemma_rail_positions_whole(n - 1);
    }
}

/// The first `r` rails are read before the rails that follow them.
proof fn lemma_rail_order_prefix(rows: int, len: int, r: int, upto: int)
    requires
        0 <= r <= upto,
    ensures
        rail_order_upto(rows, len, r).len() <= rail_order_upto(rows, len, upto).len(),
        forall|i: int|
            0 <= i < rail_order_upto(rows, len, r).len() ==> rail_order_upto(rows, len, upto)[i]
                == rail_order_upto(rows, len, r)[i],
    decreases upto,
{
    if r < upto {
        lemma_rail_order_prefix(rows, len, r, upto - 1);
    }
}

/// What `rail_order_upto` holds: positions below `len` on rails below `r`,
/// each once, ordered by rail and then by position.
proof fn lemma_rail_order_upto(rows: int, len: int, r: int)
    ensures
        forall|i: int|
            0 <= i < rail_order_upto(rows, len, r).len() ==> {
                &&& 0 <= #[trigger] rail_order_upto(rows, len, r)[i] < len
                &&& 0 <= rail_row(rows, rail_order_upto(rows, len, r)[i]) < r
            },
        forall|i: int, j: int|
            0 <= i < j < rail_order_upto(rows, len, r).len() ==> rail_before(
                rows,
                #[trigger] rail_order_upto(rows, len, r)[i],
                #[trigger] rail_order_upto(rows, len, r)[j],
            ),
    decreases r,
{
    if r > 0 {
        lemma_rail_order_upto(rows, len, r - 1);
        lemma_rail_positions(rows, r - 1, len);
        let head = rail_order_upto(rows, len, r - 1);
        let tail = rail_positions(rows, r - 1, len);
        let all = rail_order_upto(rows, len, r);
        assert(all == head + tail);
        assert forall|i: int| 0 <= i < all.len() implies {
            &&& 0 <= #[trigger] all[i] < len
            &&& 0 <= rail_row(rows, all[i]) < r
        } by {
            if i < head.len() {
                assert(all[i] == head[i]);
            } else {
                assert(all[i] == tail[i - head.len()]);
            }
        }
        assert forall|i: int, j: int| 0 <= i < j < all.len() implies rail_before(
            rows,
            #[trigger] all[i],
            #[trigger] all[j],
        ) by {
            if j < head.len() {
                assert(all[i] == head[i] && all[j] == head[j]);
            } else if i < head.len() {
                assert(all[i] == head[i] && all[j] == tail[j - head.len()]);
            } else {
                assert(all[i] == tail[i - head.len()] && all[j] == tail[j - head.len()]);
            }
        }
    }
}

/// Reading one more position adds one place, if the position lies on one
/// of the first `r` rails.
proof fn lemma_rail_order_upto_len_step(rows: int, len: int, r: int)
    requires
        len > 0,
    ensures
        rail_order_upto(rows, len, r).len() == rail_order_upto(rows, len - 1, r).len() + (if 0
            <= rail_row(rows, len - 1) < r {
            1int
        } else {
            0int
        }),
    decreases r,
{
    if r > 0 {
        lemma_rail_order_upto_len_step(rows, len, r - 1);
    }
}

/// The order has one place for each position of the text.
proof fn lemma_rail_order_len(rows: int, len: int)
    requires
        rows >= 1,
        len >= 0,
    ensures
        rail_order(rows, len).len() == len,
    decreases len,
{
    if len > 0 {
        lemma_rail_order_len(rows, len - 1);
        lemma_rail_order_upto_len_step(rows, len, rows);
        lemma_rail_row_bounds(rows, len - 1);
    } else {
        lemma_rail_order_upto(rows, len, rows);
        if rail_order(rows, len).len() > 0 {
            assert(0 <= rail_order_upto(rows, len, rows)[0] < len);
        }
    }
}

/// Rails whose number is not below `len` add nothing to the order.
proof fn lemma_rail_order_beyond(rows: int, len: int, r: int)
    requires
        rows >= 1,
        0 <= len <= r,
    ensures
        rail_order_upto(rows, len, r) == rail_order_upto(rows, len, len),
    decreases r,
{
    if len < r {
        lemma_rail_order_beyond(rows, len, r - 1);
        lemma_rail_positions_empty(rows, r - 1, len);
        assert(rail_order_upto(rows, len, r) =~= rail_order_upto(rows, len, r - 1));
    }
}

/// `rail_slot` gives the place at which a position comes out.
proof fn lemma_rail_slot(rows: int, len: int, p: int)
    requires
        rows >= 1,
        0 <= p < len,
    ensures
        0 <= rail_slot(rows, len, p) < len,
        rail_order(rows, len)[rail_slot(rows, len, p)] == p,
{
    let r = rail_row(rows, p);
    lemma_rail_row_bounds(rows, p);
    lemma_rail_positions_index(rows, r, len, p);
    lemma_rail_order_prefix(rows, len, r + 1, rows);
    lemma_rail_order_len(rows, len);
    let head = rail_order_upto(rows, len, r);
    let rail = rail_positions(rows, r, len);
    let k = rail_positions(rows, r, p).len() as int;
    assert(rail_order_upto(rows, len, r + 1) == head + rail);
    assert((head + rail)[head.len() + k] == rail[k]);
}

/// On a single rail the positions come out in the order of the text.
proof fn lemma_rail_single_row_order(len: int)
    requires
        len >= 0,
    ensures
        rail_order(1, len).len() == len,
        forall|i: int| 0 <= i < len ==> #[trigger] rail_order(1, len)[i] == i,
        forall|p: int| 0 <= p < len ==> #[trigger] rail_slot(1, len, p) == p,
{
    lemma_rail_order_is_permutation(1, len);
    lemma_rail_order_upto(1, len, 1);
    let order = rail_order(1, len);
    assert(rail_order_upto(1, len, 0).len() == 0);
    assert(order =~= rail_positions(1, 0, len));
    assert forall|i: int| 0 <= i < len implies #[trigger] order[i] == i by {
        lemma_rail_positions_index(1, 0, len, i);
        lemma_rail_positions_whole(i);
    }
    assert forall|p: int| 0 <= p < len implies #[trigger] rail_slot(1, len, p) == p by {
        lemma_rail_positions_whole(p);
    }
}

} // verus!
