//! The scytale cipher: text written down the columns of a grid and read
//! along its rows.

use vstd::prelude::*;
use crate::error::Error;
use crate::text::{
    blanks,
    chars_of,
    lemma_trim_blanks,
    lemma_trim_blanks_padded,
    string_of,
    trim_blanks,
    trim_end_blanks,
};

verus! {

// The model.

/// The number of columns that a text of `len` characters needs on a grid of
/// `height` rows: `len / height`, rounded up.
pub open spec fn scytale_width(height: int, len: int) -> int {
    if len % height == 0 {
        len / height
    } else {
        len / height + 1
    }
}

/// The character at position `p` of `text`, and a blank where the text has
/// no such position.
pub open spec fn blank_padded(text: Seq<char>, p: int) -> char {
    if 0 <= p < text.len() {
        text[p]
    } else {
        ' '
    }
}

/// The grid of `height` rows on which `text` is laid out, row after row.
/// To encipher, the text is written down the columns: position `p` stands
/// in row `p % height` and column `p / height`. To decipher, it is written
/// along the rows. Cells that the text does not reach hold a blank.
pub open spec fn scytale_grid(height: int, text: Seq<char>, decipher: bool) -> Seq<char> {
    let width = scytale_width(height, text.len() as int);
    Seq::new(
        (height * width) as nat,
        |k: int|
            if decipher {
                blank_padded(text, k)
            } else {
                blank_padded(text, (k % width) * height + k / width)
            },
    )
}

/// The grid read along its rows, after `text` was written down its columns.
pub open spec fn scytale_encipher(height: int, text: Seq<char>) -> Seq<char> {
    scytale_grid(height, text, false)
}

/// The grid read down its columns, after `text` was written along its rows.
pub open spec fn scytale_unwound(height: int, text: Seq<char>) -> Seq<char> {
    let width = scytale_width(height, text.len() as int);
    Seq::new(
        (height * width) as nat,
        |k: int| scytale_grid(height, text, true)[(k % height) * width + k / height],
    )
}

/// The grid read down its columns, without the blanks at the end.
pub open spec fn scytale_decipher(height: int, text: Seq<char>) -> Seq<char> {
    trim_blanks(scytale_unwound(height, text))
}

// The cipher.

/// A scytale cipher with a fixed number of rows.
#[derive(Debug)]
pub struct Scytale {
    height: usize,
}

impl Scytale {
    #[verifier::type_invariant]
    spec fn has_a_row(self) -> bool {
        self.height >= 1
    }

    /// The number of rows of the grid.
    pub closed spec fn rows(&self) -> int {
        self.height as int
    }

    /// A cipher with a grid of `height` rows. A grid needs at least one row:
    /// a height of zero is refused.
    pub fn new(height: usize) -> (r: Result<Scytale, Error>)
        ensures
            height == 0 ==> (r matches Err(e) && e == Error::InvalidKey),
            height != 0 ==> (r matches Ok(cipher) && cipher.rows() == height),
    {
        if height == 0 {
            Err(Error::InvalidKey)
        } else {
            Ok(Scytale { height })
        }
    }

    /// The grid read along its rows, after `plaintext` was written down its
    /// columns; cells that the text did not reach come out as blanks, so
    /// that what comes out fills the grid. The text must have more
    /// characters than the grid has rows.
    pub fn encipher(&self, plaintext: &str) -> (r: Result<String, Error>)
        ensures
            self.rows() >= plaintext@.len() ==> (r matches Err(e) && e == Error::KeyTooLarge),
            self.rows() < plaintext@.len() ==> (r matches Ok(ciphertext) && ciphertext@
                == scytale_encipher(self.rows(), plaintext@) && ciphertext@.len() == self.rows()
                * scytale_width(self.rows(), plaintext@.len() as int)),
    {
        proof {
            use_type_invariant(self);
            lemma_scytale_lengths(self.rows(), plaintext@);
        }
        match self.transpose(plaintext, false) {
            Ok(grid) => Ok(string_of(&grid)),
            Err(e) => Err(e),
        }
    }

    /// The grid read down its columns, after `ciphertext` was written along
    /// its rows, without the blanks at the end. The text must have more
    /// characters than the grid has rows.
    pub fn decipher(&self, ciphertext: &str) -> (r: Result<String, Error>)
        ensures
            self.rows() >= ciphertext@.len() ==> (r matches Err(e) && e == Error::KeyTooLarge),
            self.rows() < ciphertext@.len() ==> (r matches Ok(plaintext) && plaintext@
                == scytale_decipher(self.rows(), ciphertext@)),
    {
        proof {
            use_type_invariant(self);
        }
        let width = self.width(ciphertext.unicode_len());
        let grid = match self.transpose(ciphertext, true) {
            Ok(grid) => grid,
            Err(e) => { return Err(e); },
        };
        let ghost unwound = scytale_unwound(self.rows(), ciphertext@);
        proof {
            lemma_scytale_width(self.rows(), ciphertext@.len() as int);
            assert(0 <= self.height * width) by (nonlinear_arith);
        }
        let mut plaintext: Vec<char> = Vec::new();
        let mut column: usize = 0;
        while column < width
            invariant
                self.has_a_row(),
                column <= width == scytale_width(self.rows(), ciphertext@.len() as int),
                grid@ == scytale_grid(self.rows(), ciphertext@, true),
                grid.len() == self.height * width,
                unwound == scytale_unwound(self.rows(), ciphertext@),
                plaintext@ == unwound.take(column * self.height),
            decreases width - column,
        {
            let mut row: usize = 0;
            while row < self.height
                invariant
                    self.has_a_row(),
                    row <= self.height,
                    column < width == scytale_width(self.rows(), ciphertext@.len() as int),
                    grid@ == scytale_grid(self.rows(), ciphertext@, true),
                    grid.len() == self.height * width,
                    unwound == scytale_unwound(self.rows(), ciphertext@),
                    plaintext@ == unwound.take(column * self.height + row),
                decreases self.height - row,
            {
                proof {
                    lemma_grid_cell(width as int, self.rows(), row as int, column as int);
                    lemma_grid_cell(self.rows(), width as int, column as int, row as int);
                    assert(width * self.height == self.height * width) by (nonlinear_arith);
                }
                let ghost k = column * self.height + row;
                plaintext.push(grid[row * width + column]);
                assert(plaintext@ =~= unwound.take(k + 1));
                row += 1;
            }
            assert((column + 1) * self.height == column * self.height + self.height)
                by (nonlinear_arith);
            column += 1;
        }
        proof {
            assert(width * self.height == self.height * width) by (nonlinear_arith);
            assert(plaintext@ =~= unwound);
        }
        trim_end_blanks(&mut plaintext);
        Ok(string_of(&plaintext))
    }

    /// The number of columns that a text of `length` characters needs.
    fn width(&self, length: usize) -> (width: usize)
        ensures
            width == scytale_width(self.rows(), length as int),
    {
        proof {
            use_type_invariant(self);
            lemma_scytale_width(self.rows(), length as int);
        }
        if length % self.height == 0 {
            length / self.height
        } else {
            length / self.height + 1
        }
    }

    /// Lays `text` out on the grid and returns the grid, row after row:
    /// written down the columns to encipher, along the rows to decipher.
    /// A text with no more characters than the grid has rows is refused.
    pub fn transpose(&self, text: &str, decipher: bool) -> (r: Result<Vec<char>, Error>)
        ensures
            self.rows() >= text@.len() ==> (r matches Err(e) && e == Error::KeyTooLarge),
            self.rows() < text@.len() ==> (r matches Ok(grid) && grid@ == scytale_grid(
                self.rows(),
                text@,
                decipher,
            )),
    {
        proof {
            use_type_invariant(self);
        }
        let symbols = chars_of(text);
        let length = symbols.len();
        if self.height >= length {
            return Err(Error::KeyTooLarge);
        }
        let width = self.width(length);
        let ghost cells = scytale_grid(self.rows(), text@, decipher);
        let mut grid: Vec<char> = Vec::new();
        let mut row: usize = 0;
        while row < self.height
            invariant
                self.has_a_row(),
                row <= self.height < length == symbols.len(),
                symbols@ == text@,
                width == scytale_width(self.rows(), length as int),
                cells == scytale_grid(self.rows(), text@, decipher),
                grid@ == cells.take(row * width),
            decreases self.height - row,
        {
            let mut column: usize = 0;
            // The position of the text that goes down the columns into this
            // cell, or `length` once the text has run out.
            let mut source: usize = row;
            while column < width
                invariant
                    self.has_a_row(),
                    column <= width,
                    row < self.height < length == symbols.len(),
                    symbols@ == text@,
                    width == scytale_width(self.rows(), length as int),
                    cells == scytale_grid(self.rows(), text@, decipher),
                    grid@ == cells.take(row * width + column),
                    column * self.height + row < length ==> source == column * self.height + row,
                    column * self.height + row >= length ==> source == length,
                decreases width - column,
            {
                proof {
                    lemma_grid_cell(width as int, self.rows(), row as int, column as int);
                    assert((column + 1) * self.height == column * self.height + self.height)
                        by (nonlinear_arith);
                }
                let ghost k = row * width + column;
                let place = if decipher {
                    grid.len()
                } else {
                    source
                };
                if place < length {
                    grid.push(symbols[place]);
                } else {
                    grid.push(' ');
                }
                assert(grid@ =~= cells.take(k + 1));
                if source < length {
                    source = if length - source > self.height {
                        source + self.height
                    } else {
                        length
                    };
                }
                column += 1;
            }
            assert((row + 1) * width == row * width + width) by (nonlinear_arith);
            row += 1;
        }
        proof {
            assert(self.height * width == self.rows() * width);
            assert(grid@ =~= cells);
        }
        Ok(grid)
    }
}

// What holds of the cipher.

/// The grid has room for the text, and no column too many.
pub proof fn lemma_scytale_width(height: int, len: int)
    requires
        height >= 1,
        len >= 0,
    ensures
        0 <= scytale_width(height, len) <= len,
        len <= height * scytale_width(height, len) < len + height,
        len > 0 ==> scytale_width(height, len) >= 1,
{
    vstd::arithmetic::div_mod::lemma_fundamental_div_mod(len, height);
    let q = len / height;
    assert(height * (q + 1) == height * q + height) by (nonlinear_arith);
    assert(0 <= q <= len) by (nonlinear_arith)
        requires
            len == height * q + len % height,
            0 <= len % height < height,
            height >= 1,
            len >= 0,
    ;
    if len > 0 && len % height == 0 {
        assert(q >= 1) by (nonlinear_arith)
            requires
                len == height * q,
                len > 0,
                height >= 1,
        ;
    }
    if len % height != 0 {
        assert(q + 1 <= len) by (nonlinear_arith)
            requires
                len == height * q + len % height,
                0 < len % height < height,
                q >= 0,
        ;
    }
}

/// Read down its columns, the enciphered grid gives the text back,
/// followed by a blank for each cell that the text did not reach.
pub proof fn lemma_scytale_unwinds(height: int, text: Seq<char>)
    requires
        height >= 1,
    ensures
        scytale_unwound(height, scytale_encipher(height, text)) == text + blanks(
            height * scytale_width(height, text.len() as int) - text.len(),
        ),
{
    let len = text.len() as int;
    let width = scytale_width(height, len);
    let wound = scytale_encipher(height, text);
    let padded = text + blanks(height * width - len);
    lemma_scytale_width(height, len);
    lemma_scytale_width_of_grid(height, width);
    assert(0 <= height * width) by (nonlinear_arith)
        requires
            height >= 1,
            width >= 0,
    ;
    let unwound = scytale_unwound(height, wound);
    assert(unwound.len() == padded.len());
    assert forall|k: int| 0 <= k < unwound.len() implies unwound[k] == padded[k] by {
        lemma_grid_column(width, height, k);
        lemma_grid_cell(width, height, k % height, k / height);
        let j = (k % height) * width + k / height;
        assert(unwound[k] == scytale_grid(height, wound, true)[j]);
        assert(scytale_grid(height, wound, true)[j] == wound[j]);
        assert(wound[j] == blank_padded(text, k));
    }
    assert(unwound =~= padded);
}

/// Deciphering an enciphered text gives the text without the blanks at its
/// end: the blanks that filled the grid cannot be told from blanks of the
/// text. A text that does not end in a blank comes back unchanged.
pub proof fn lemma_scytale_round_trip(height: int, text: Seq<char>)
    requires
        height >= 1,
    ensures
        scytale_decipher(height, scytale_encipher(height, text)) == trim_blanks(text),
        text.len() > 0 && text.last() != ' ' ==> scytale_decipher(
            height,
            scytale_encipher(height, text),
        ) == text,
{
    lemma_scytale_unwinds(height, text);
    lemma_trim_blanks_padded(
        text,
        height * scytale_width(height, text.len() as int) - text.len(),
    );
}

/// The enciphered text fills the grid: it has `height * width` characters,
/// which is at least the length of the text and less than one more column.
/// Deciphering it trims the text back to its own length, if the text does
/// not end in a blank.
pub proof fn lemma_scytale_lengths(height: int, text: Seq<char>)
    requires
        height >= 1,
    ensures
        scytale_encipher(height, text).len() == height * scytale_width(
            height,
            text.len() as int,
        ),
        text.len() <= scytale_encipher(height, text).len() < text.len() + height,
        scytale_decipher(height, scytale_encipher(height, text)).len() <= text.len(),
        text.len() > 0 && text.last() != ' ' ==> scytale_decipher(
            height,
            scytale_encipher(height, text),
        ).len() == text.len(),
{
    lemma_scytale_width(height, text.len() as int);
    lemma_scytale_round_trip(height, text);
    lemma_trim_blanks(text);
}

// Steps towards the above.

/// A full grid has the width it was built with.
proof fn lemma_scytale_width_of_grid(height: int, width: int)
    requires
        height >= 1,
        width >= 0,
    ensures
        scytale_width(height, height * width) == width,
{
    assert(height * width == width * height) by (nonlinear_arith);
    vstd::arithmetic::div_mod::lemma_fundamental_div_mod_converse(
        height * width,
        height,
        width,
        0,
    );
}

/// Cell `column` of row `row` is cell `row * width + column` of the grid.
proof fn lemma_grid_cell(width: int, height: int, row: int, column: int)
    requires
        0 <= row < height,
        0 <= column < width,
    ensures
        0 <= row * width + column < height * width,
        (row * width + column) / width == row,
        (row * width + column) % width == column,
{
    vstd::arithmetic::div_mod::lemma_fundamental_div_mod_converse(
        row * width + column,
        width,
        row,
        column,
    );
    assert(0 <= row * width && row * width + width <= height * width) by (nonlinear_arith)
        requires
            0 <= row < height,
            width > 0,
    ;
}

/// Cell `k` of a grid of `height` rows lies in one of its columns.
proof fn lemma_grid_column(width: int, height: int, k: int)
    requires
        height >= 1,
        0 <= k < height * width,
    ensures
        0 <= k % height < height,
        0 <= k / height < width,
        (k / height) * height + k % height == k,
{
    vstd::arithmetic::div_mod::lemma_fundamental_div_mod(k, height);
    let q = k / height;
    assert(0 <= q < width) by (nonlinear_arith)
        requires
            k == height * q + k % height,
            0 <= k % height < height,
            0 <= k < height * width,
    ;
    assert(q * height == height * q) by (nonlinear_arith);
}

} // verus!
