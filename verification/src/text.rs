//! The puzzle as text: coordinates, region names, the partition and the
//! grid, laid out for reading.

use vstd::prelude::*;
use crate::field::{Coords, Field, Grid};
use crate::regions::{RegionId, Regions, Cages};

verus! {

/// The character for a digit below ten.
pub open spec fn numeral(d: int) -> char {
    if d == 0 {
        '0'
    } else if d == 1 {
        '1'
    } else if d == 2 {
        '2'
    } else if d == 3 {
        '3'
    } else if d == 4 {
        '4'
    } else if d == 5 {
        '5'
    } else if d == 6 {
        '6'
    } else if d == 7 {
        '7'
    } else if d == 8 {
        '8'
    } else {
        '9'
    }
}

/// A number in decimal, without leading zeros.
pub open spec fn decimal(n: nat) -> Seq<char>
    decreases n,
{
    if n < 10 {
        seq![numeral(n as int)]
    } else {
        decimal(n / 10).push(numeral((n % 10) as int))
    }
}

/// `n` blanks.
pub open spec fn blanks(n: int) -> Seq<char> {
    Seq::new(
        if n > 0 {
            n as nat
        } else {
            0
        },
        |i: int| ' ',
    )
}

/// A number in decimal, moved to the right in a column three wide.
pub open spec fn in_column(n: nat) -> Seq<char> {
    blanks(3 - decimal(n).len()) + decimal(n)
}

/// `(x, y)`.
pub open spec fn coords_text(c: Coords) -> Seq<char> {
    seq!['('] + decimal(c.x as nat) + seq![',', ' '] + decimal(c.y as nat) + seq![')']
}

/// `Region(k)`.
pub open spec fn region_text(k: u32) -> Seq<char> {
    seq!['R', 'e', 'g', 'i', 'o', 'n', '('] + decimal(k as nat) + seq![')']
}

/// The sums of the regions numbered below `n`, as `Region(k): sum`, in
/// order, with `, ` between them.
pub open spec fn sums_text(sums: Map<u32, u32>, n: nat) -> Seq<char>
    decreases n,
{
    if n == 0 {
        Seq::empty()
    } else {
        let k = (n - 1) as u32;
        let before = sums_text(sums, (n - 1) as nat);
        if sums.contains_key(k) {
            before + (if before.len() > 0 {
                seq![',', ' ']
            } else {
                Seq::empty()
            }) + region_text(k) + seq![':', ' '] + decimal(sums[k] as nat)
        } else {
            before
        }
    }
}

/// The first `n` region numbers of row `y`, each in its column and
/// followed by a blank.
pub open spec fn id_row_text(cages: Cages, y: int, n: int) -> Seq<char>
    decreases n,
{
    if n <= 0 {
        Seq::empty()
    } else {
        id_row_text(cages, y, n - 1) + in_column(cages.ids[y][n - 1].0 as nat) + seq![' ']
    }
}

/// The first `n` rows of region numbers, a line each.
pub open spec fn id_rows_text(cages: Cages, n: int) -> Seq<char>
    decreases n,
{
    if n <= 0 {
        Seq::empty()
    } else {
        id_rows_text(cages, n - 1) + id_row_text(cages, n - 1, 9) + seq!['\n']
    }
}

/// The partition: the sums of the regions numbered below the next number
/// to hand out, then the region of every cell.
pub open spec fn cages_text(cages: Cages) -> Seq<char> {
    seq!['S', 'u', 'm', 's', ':', '\n', '{'] + sums_text(cages.sums, cages.next as nat) + seq![
        '}',
        '\n',
        'R',
        'e',
        'g',
        'i',
        'o',
        'n',
        's',
        ':',
        '\n',
    ] + id_rows_text(cages, 9) + seq!['\n']
}

/// A cell: its digit in decimal, or a blank.
pub open spec fn cell_text(d: Option<u8>) -> Seq<char> {
    match d {
        Some(v) => decimal(v as nat),
        None => seq![' '],
    }
}

/// The first `n` cells of row `y`.
pub open spec fn cell_row_text(g: Grid, y: int, n: int) -> Seq<char>
    decreases n,
{
    if n <= 0 {
        Seq::empty()
    } else {
        cell_row_text(g, y, n - 1) + cell_text(g[y][n - 1].digit)
    }
}

/// The first `n` rows of cells, a line each.
pub open spec fn cell_rows_text(g: Grid, n: int) -> Seq<char>
    decreases n,
{
    if n <= 0 {
        Seq::empty()
    } else {
        cell_rows_text(g, n - 1) + cell_row_text(g, n - 1, 9) + seq!['\n']
    }
}

/// The puzzle: the grid, then the partition.
pub open spec fn field_text(g: Grid, cages: Cages) -> Seq<char> {
    seq!['C', 'e', 'l', 'l', 's', ':', '\n'] + cell_rows_text(g, 9) + seq![
        'R',
        'e',
        'g',
        'i',
        'o',
        'n',
        's',
        ':',
        '\n',
    ] + cages_text(cages) + seq!['\n']
}

/// `chars.iter().collect::<String>()` of the standard library: the string
/// made of the given characters in their order.
#[verifier::external_body]
fn string_of(chars: &Vec<char>) -> (s: String)
    ensures
        s@ == chars@,
{
    chars.iter().collect()
}

fn numeral_of(d: u32) -> (c: char)
    requires
        d < 10,
    ensures
        c == numeral(d as int),
{
    if d == 0 {
        '0'
    } else if d == 1 {
        '1'
    } else if d == 2 {
        '2'
    } else if d == 3 {
        '3'
    } else if d == 4 {
        '4'
    } else if d == 5 {
        '5'
    } else if d == 6 {
        '6'
    } else if d == 7 {
        '7'
    } else if d == 8 {
        '8'
    } else {
        '9'
    }
}

fn push_decimal(out: &mut Vec<char>, n: u32)
    ensures
        final(out)@ == old(out)@ + decimal(n as nat),
    decreases n,
{
    if n >= 10 {
        push_decimal(out, n / 10);
    }
    out.push(numeral_of(n % 10));
    proof {
        if n >= 10 {
            assert(final(out)@ =~= old(out)@ + decimal((n / 10) as nat).push(
                numeral((n % 10) as int),
            ));
        } else {
            assert(final(out)@ =~= old(out)@ + seq![numeral(n as int)]);
        }
    }
}

proof fn lemma_decimal_len(n: nat)
    ensures
        n < 10 ==> decimal(n).len() == 1,
        10 <= n < 100 ==> decimal(n).len() == 2,
        100 <= n ==> decimal(n).len() >= 3,
    decreases n,
{
    if n >= 10 {
        lemma_decimal_len(n / 10);
    }
}

fn push_in_column(out: &mut Vec<char>, n: u32)
    ensures
        final(out)@ == old(out)@ + in_column(n as nat),
{
    proof {
        lemma_decimal_len(n as nat);
    }
    if n < 10 {
        out.push(' ');
        out.push(' ');
        assert(blanks(2) =~= seq![' ', ' ']);
    } else if n < 100 {
        out.push(' ');
        assert(blanks(1) =~= seq![' ']);
    } else {
        assert(blanks(3 - decimal(n as nat).len()) =~= Seq::<char>::empty());
    }
    let ghost padded = out@;
    push_decimal(out, n);
    assert(final(out)@ =~= old(out)@ + in_column(n as nat));
}

fn push_region(out: &mut Vec<char>, k: u32)
    ensures
        final(out)@ == old(out)@ + region_text(k),
{
    out.push('R');
    out.push('e');
    out.push('g');
    out.push('i');
    out.push('o');
    out.push('n');
    out.push('(');
    push_decimal(out, k);
    out.push(')');
    assert(final(out)@ =~= old(out)@ + region_text(k));
}

impl Coords {
    /// The coordinates as `(x, y)`.
    pub fn to_text(&self) -> (s: String)
        ensures
            s@ == coords_text(*self),
    {
        let mut out: Vec<char> = Vec::new();
        out.push('(');
        push_decimal(&mut out, self.x as u32);
        out.push(',');
        out.push(' ');
        push_decimal(&mut out, self.y as u32);
        out.push(')');
        assert(out@ =~= coords_text(*self));
        string_of(&out)
    }
}

impl RegionId {
    /// The region's name as `Region(k)`.
    pub fn to_text(&self) -> (s: String)
        ensures
            s@ == region_text(self.0),
    {
        let mut out: Vec<char> = Vec::new();
        push_region(&mut out, self.0);
        assert(out@ =~= region_text(self.0));
        string_of(&out)
    }
}

impl Regions {
    fn push_text(&self, out: &mut Vec<char>)
        ensures
            final(out)@ == old(out)@ + cages_text(self@),
    {
        let ghost cages = self@;
        out.push('S');
        out.push('u');
        out.push('m');
        out.push('s');
        out.push(':');
        out.push('\n');
        out.push('{');
        let ghost head = out@;
        assert(head =~= old(out)@ + seq!['S', 'u', 'm', 's', ':', '\n', '{']);
        let mut any = false;
        let mut k: u32 = 0;
        while k < self.next_id.0
            invariant
                cages == self@,
                k <= self.next_id.0,
                out@ == head + sums_text(cages.sums, k as nat),
                any == (sums_text(cages.sums, k as nat).len() > 0),
            decreases self.next_id.0 - k,
        {
            let ghost before = sums_text(cages.sums, k as nat);
            match self.sums.get(&k) {
                Some(sum) => {
                    if any {
                        out.push(',');
                        out.push(' ');
                    }
                    push_region(out, k);
                    out.push(':');
                    out.push(' ');
                    push_decimal(out, *sum);
                    any = true;
                    assert(cages.sums.contains_key(k));
                    assert(out@ =~= head + (before + (if before.len() > 0 {
                        seq![',', ' ']
                    } else {
                        Seq::empty()
                    }) + region_text(k) + seq![':', ' '] + decimal(cages.sums[k] as nat)));
                },
                None => {
                    assert(!cages.sums.contains_key(k));
                },
            }
            k += 1;
        }
        out.push('}');
        out.push('\n');
        out.push('R');
        out.push('e');
        out.push('g');
        out.push('i');
        out.push('o');
        out.push('n');
        out.push('s');
        out.push(':');
        out.push('\n');
        let ghost middle = out@;
        assert(middle =~= head + sums_text(cages.sums, cages.next as nat) + seq![
            '}',
            '\n',
            'R',
            'e',
            'g',
            'i',
            'o',
            'n',
            's',
            ':',
            '\n',
        ]);
        for y in 0..9usize
            invariant
                cages == self@,
                out@ == middle + id_rows_text(cages, y as int),
        {
            let ghost rows = out@;
            for x in 0..9usize
                invariant
                    y < 9,
                    cages == self@,
                    out@ == rows + id_row_text(cages, y as int, x as int),
            {
                let ghost row = id_row_text(cages, y as int, x as int);
                let reg = self.cells[y][x].0;
                push_in_column(out, reg);
                out.push(' ');
                assert(out@ =~= rows + (row + in_column(reg as nat) + seq![' ']));
            }
            out.push('\n');
            assert(out@ =~= middle + (id_rows_text(cages, y as int) + id_row_text(
                cages,
                y as int,
                9,
            ) + seq!['\n']));
        }
        out.push('\n');
        assert(out@ =~= old(out)@ + cages_text(cages));
    }

    /// The partition as text: the sums, then the region of every cell.
    pub fn to_text(&self) -> (s: String)
        ensures
            s@ == cages_text(self@),
    {
        let mut out: Vec<char> = Vec::new();
        self.push_text(&mut out);
        assert(out@ =~= cages_text(self@));
        string_of(&out)
    }
}

impl Field {
    /// The puzzle as text: the grid, a line for each row, then the
    /// partition.
    pub fn to_text(&self) -> (s: String)
        ensures
            s@ == field_text(self.cells, self.regions@),
    {
        let mut out: Vec<char> = Vec::new();
        out.push('C');
        out.push('e');
        out.push('l');
        out.push('l');
        out.push('s');
        out.push(':');
        out.push('\n');
        let ghost head = out@;
        assert(head =~= seq!['C', 'e', 'l', 'l', 's', ':', '\n']);
        for y in 0..9usize
            invariant
                out@ == head + cell_rows_text(self.cells, y as int),
        {
            let ghost rows = out@;
            for x in 0..9usize
                invariant
                    y < 9,
                    out@ == rows + cell_row_text(self.cells, y as int, x as int),
            {
                let ghost row = cell_row_text(self.cells, y as int, x as int);
                match self.cells[y][x].digit {
                    Some(d) => {
                        push_decimal(&mut out, d as u32);
                    },
                    None => {
                        out.push(' ');
                    },
                }
                assert(out@ =~= rows + (row + cell_text(self.cells[y as int][x as int].digit)));
            }
            out.push('\n');
            assert(out@ =~= head + (cell_rows_text(self.cells, y as int) + cell_row_text(
                self.cells,
                y as int,
                9,
            ) + seq!['\n']));
        }
        out.push('R');
        out.push('e');
        out.push('g');
        out.push('i');
        out.push('o');
        out.push('n');
        out.push('s');
        out.push(':');
        out.push('\n');
        let ghost middle = out@;
        self.regions.push_text(&mut out);
        out.push('\n');
        assert(out@ =~= field_text(self.cells, self.regions@));
        string_of(&out)
    }
}

} // verus!
