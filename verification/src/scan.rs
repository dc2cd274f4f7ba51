//! The schematic scanner: numbers as row/column spans, single-cell symbols,
//! and the one-cell-radius adjacency rule between them.

use vstd::prelude::*;

use itertools::Itertools;

use crate::input::{trim_newlines, Input};
use crate::text::{digits_value, is_digit, split_lines};

verus! {

/// A maximal run of decimal digits in one line of the grid: its parsed
/// value, its row, and its inclusive column span.
#[derive(Clone, Copy, Debug, PartialEq, Eq, Structural)]
pub struct Number {
    pub number: u32,
    pub row: usize,
    pub start: usize,
    pub end: usize,
}

/// A single character that is neither a digit nor `.`, at its row and column.
#[derive(Clone, Copy, Debug, PartialEq, Eq, Structural)]
pub struct Symbol {
    pub symbol: char,
    pub row: usize,
    pub col: usize,
}

/// Every character of `t` is a decimal digit.
pub open spec fn all_digits(t: Seq<char>) -> bool {
    forall|j: int| 0 <= j < t.len() ==> is_digit(t[j])
}

/// Every run of digits in `line` names a value that fits in a `u32`.
pub open spec fn line_runs_fit(line: Seq<char>) -> bool {
    forall|a: int, b: int|
        0 <= a <= b <= line.len() && all_digits(#[trigger] line.subrange(a, b)) ==> digits_value(
            line.subrange(a, b),
        ) <= u32::MAX
}

/// `line_runs_fit`, over every line of a grid.
pub open spec fn grid_runs_fit(lines: Seq<Seq<char>>) -> bool {
    forall|r: int| 0 <= r < lines.len() ==> line_runs_fit(#[trigger] lines[r])
}

/// The token for the digit run of `line` on columns `[rs, end_excl)`.
pub open spec fn run_token(line: Seq<char>, row: int, rs: int, end_excl: int) -> Number {
    Number {
        number: digits_value(line.subrange(rs, end_excl)) as u32,
        row: row as usize,
        start: rs as usize,
        end: (end_excl - 1) as usize,
    }
}

/// The number tokens of `line` at column `i` onward; `rs < i` exactly when
/// the columns `[rs, i)` are the digits read so far of an open run.
pub open spec fn nums_rec(line: Seq<char>, row: int, i: int, rs: int) -> Seq<Number>
    decreases line.len() - i,
{
    if i >= line.len() {
        if rs < i {
            seq![run_token(line, row, rs, i)]
        } else {
            Seq::empty()
        }
    } else if is_digit(line[i]) {
        nums_rec(line, row, i + 1, rs)
    } else if rs < i {
        seq![run_token(line, row, rs, i)] + nums_rec(line, row, i + 1, i + 1)
    } else {
        nums_rec(line, row, i + 1, i + 1)
    }
}

/// The number tokens of one grid line: one per maximal digit run, left to
/// right, spanning exactly that run, valued as its base-10 reading.
pub open spec fn line_numbers(line: Seq<char>, row: int) -> Seq<Number> {
    nums_rec(line, row, 0, 0)
}

/// The symbol token for the cell of `line` at row `row`, column `i`.
pub open spec fn sym_token(line: Seq<char>, row: int, i: int) -> Symbol {
    Symbol { symbol: line[i], row: row as usize, col: i as usize }
}

/// The symbol tokens of `line` at column `i` onward.
pub open spec fn syms_rec(line: Seq<char>, row: int, i: int) -> Seq<Symbol>
    decreases line.len() - i,
{
    if i >= line.len() {
        Seq::empty()
    } else if !is_digit(line[i]) && line[i] != '.' {
        seq![sym_token(line, row, i)] + syms_rec(line, row, i + 1)
    } else {
        syms_rec(line, row, i + 1)
    }
}

/// The symbol tokens of one grid line: one per character that is neither a
/// digit nor `.`, left to right.
pub open spec fn line_symbols(line: Seq<char>, row: int) -> Seq<Symbol> {
    syms_rec(line, row, 0)
}

/// The number tokens of the grid from row `r` onward.
pub open spec fn grid_nums_rec(lines: Seq<Seq<char>>, r: int) -> Seq<Number>
    decreases lines.len() - r,
{
    if r >= lines.len() {
        Seq::empty()
    } else {
        line_numbers(lines[r], r) + grid_nums_rec(lines, r + 1)
    }
}

/// All number tokens of the grid, row by row.
pub open spec fn grid_numbers(lines: Seq<Seq<char>>) -> Seq<Number> {
    grid_nums_rec(lines, 0)
}

/// The symbol tokens of the grid from row `r` onward.
pub open spec fn grid_syms_rec(lines: Seq<Seq<char>>, r: int) -> Seq<Symbol>
    decreases lines.len() - r,
{
    if r >= lines.len() {
        Seq::empty()
    } else {
        line_symbols(lines[r], r) + grid_syms_rec(lines, r + 1)
    }
}

/// All symbol tokens of the grid, row by row.
pub open spec fn grid_symbols(lines: Seq<Seq<char>>) -> Seq<Symbol> {
    grid_syms_rec(lines, 0)
}

/// The one-cell-radius adjacency rule: the symbol's row is within one of the
/// number's row, and its column is within one of the number's span. The
/// arithmetic is over unbounded integers, so the clamp at column zero is
/// implicit: `start <= col + 1` says exactly what a clamped `start - 1 <= col`
/// says.
pub open spec fn adjacent(n: Number, s: Symbol) -> bool {
    &&& n.row <= s.row + 1
    &&& s.row <= n.row + 1
    &&& n.start <= s.col + 1
    &&& s.col <= n.end + 1
}

impl Number {
    /// Whether `symbol` touches this number's span, diagonals included.
    pub fn is_adjacent(&self, symbol: &Symbol) -> (b: bool)
        ensures
            b == adjacent(*self, *symbol),
    {
        let row_ok = if self.row >= symbol.row {
            self.row - symbol.row <= 1
        } else {
            symbol.row - self.row <= 1
        };
        let left_ok = self.start == 0 || self.start - 1 <= symbol.col;
        let right_ok = symbol.col <= self.end || symbol.col - 1 == self.end;
        row_ok && left_ok && right_ok
    }

    /// The number tokens of one line, one per maximal digit run.
    pub fn parse_row(row: usize, line: &str) -> (r: Vec<Number>)
        requires
            line_runs_fit(line@),
        ensures
            r@ == line_numbers(line@, row as int),
    {
        let n = line.unicode_len();
        let mut out: Vec<Number> = Vec::new();
        let mut i: usize = 0;
        let mut rs: usize = 0;
        proof {
            assert(out@ + nums_rec(line@, row as int, 0, 0) =~= line_numbers(line@, row as int));
        }
        while i < n
            invariant
                0 <= rs <= i <= n,
                n == line@.len(),
                line_runs_fit(line@),
                forall|j: int| rs <= j < i ==> is_digit(line@[j]),
                out@ + nums_rec(line@, row as int, i as int, rs as int) == line_numbers(
                    line@,
                    row as int,
                ),
            decreases n - i,
        {
            let ghost pre = out@;
            if crate::text::digit_char(line.get_char(i)) {
                // the run opens at `rs == i` or extends; the spec keeps `rs`
            } else {
                if rs < i {
                    let tok = take_run(line, row, rs, i);
                    out.push(tok);
                    proof {
                        assert(nums_rec(line@, row as int, i as int, rs as int) == seq![
                            run_token(line@, row as int, rs as int, i as int),
                        ] + nums_rec(line@, row as int, i + 1, i + 1));
                        assert(pre + nums_rec(line@, row as int, i as int, rs as int) =~= out@
                            + nums_rec(line@, row as int, i + 1, i + 1));
                    }
                }
                rs = i + 1;
            }
            i += 1;
        }
        if rs < n {
            let ghost pre = out@;
            let tok = take_run(line, row, rs, n);
            out.push(tok);
            proof {
                assert(nums_rec(line@, row as int, n as int, rs as int) == seq![
                    run_token(line@, row as int, rs as int, n as int),
                ]);
                assert(pre + nums_rec(line@, row as int, n as int, rs as int) =~= out@);
            }
        }
        out
    }
}

/// Reads the digit run of `line` on columns `[rs, end_excl)` as a token.
fn take_run(line: &str, row: usize, rs: usize, end_excl: usize) -> (tok: Number)
    requires
        rs < end_excl <= line@.len(),
        forall|j: int| rs <= j < end_excl ==> is_digit(line@[j]),
        line_runs_fit(line@),
    ensures
        tok == run_token(line@, row as int, rs as int, end_excl as int),
{
    let piece = line.substring_char(rs, end_excl);
    proof {
        assert(piece@ =~= line@.subrange(rs as int, end_excl as int));
        assert(crate::text::is_u32_text(piece@));
    }
    let value = crate::text::parse_u32(piece).unwrap();
    Number { number: value, row, start: rs, end: end_excl - 1 }
}

impl Symbol {
    /// The symbol tokens of one line, one per non-digit, non-`.` character.
    pub fn parse_row(row: usize, line: &str) -> (r: Vec<Symbol>)
        ensures
            r@ == line_symbols(line@, row as int),
    {
        let n = line.unicode_len();
        let mut out: Vec<Symbol> = Vec::new();
        let mut i: usize = 0;
        proof {
            assert(out@ + syms_rec(line@, row as int, 0) =~= line_symbols(line@, row as int));
        }
        while i < n
            invariant
                0 <= i <= n,
                n == line@.len(),
                out@ + syms_rec(line@, row as int, i as int) == line_symbols(line@, row as int),
            decreases n - i,
        {
            let ghost pre = out@;
            let c = line.get_char(i);
            if !crate::text::digit_char(c) && c != '.' {
                out.push(Symbol { symbol: c, row, col: i });
                proof {
                    assert(pre + syms_rec(line@, row as int, i as int) =~= out@ + syms_rec(
                        line@,
                        row as int,
                        i + 1,
                    ));
                }
            }
            i += 1;
        }
        out
    }
}

/// All number tokens of an input grid, row by row.
pub fn get_numbers_from_input(input: &Input) -> (r: Vec<Number>)
    requires
        grid_runs_fit(split_lines(input@)),
    ensures
        r@ == grid_numbers(split_lines(input@)),
{
    let ghost grid = split_lines(input@);
    let lines = input.as_lines();
    let mut out: Vec<Number> = Vec::new();
    let mut row: usize = 0;
    proof {
        assert(out@ + grid_nums_rec(grid, 0) =~= grid_numbers(grid));
    }
    while row < lines.len()
        invariant
            0 <= row <= lines@.len(),
            lines.deep_view() == split_lines(input@),
            grid == split_lines(input@),
            grid_runs_fit(grid),
            lines.deep_view().len() == lines@.len(),
            out@ + grid_nums_rec(grid, row as int) == grid_numbers(grid),
        decreases lines@.len() - row,
    {
        let ghost pre = out@;
        proof {
            assert(lines@[row as int]@ == grid[row as int]);
        }
        let mut toks = Number::parse_row(row, lines[row].as_str());
        out.append(&mut toks);
        proof {
            assert(grid_nums_rec(grid, row as int) == line_numbers(grid[row as int], row as int)
                + grid_nums_rec(grid, row + 1));
            assert(pre + grid_nums_rec(grid, row as int) =~= out@ + grid_nums_rec(grid, row + 1));
        }
        row += 1;
    }
    out
}

/// All symbol tokens of an input grid, row by row.
pub fn get_symbols_from_input(input: &Input) -> (r: Vec<Symbol>)
    ensures
        r@ == grid_symbols(split_lines(input@)),
{
    let ghost grid = split_lines(input@);
    let lines = input.as_lines();
    let mut out: Vec<Symbol> = Vec::new();
    let mut row: usize = 0;
    proof {
        assert(out@ + grid_syms_rec(grid, 0) =~= grid_symbols(grid));
    }
    while row < lines.len()
        invariant
            0 <= row <= lines@.len(),
            lines.deep_view() == split_lines(input@),
            grid == split_lines(input@),
            lines.deep_view().len() == lines@.len(),
            out@ + grid_syms_rec(grid, row as int) == grid_symbols(grid),
        decreases lines@.len() - row,
    {
        let ghost pre = out@;
        proof {
            assert(lines@[row as int]@ == grid[row as int]);
        }
        let mut toks = Symbol::parse_row(row, lines[row].as_str());
        out.append(&mut toks);
        proof {
            assert(grid_syms_rec(grid, row as int) == line_symbols(grid[row as int], row as int)
                + grid_syms_rec(grid, row + 1));
            assert(pre + grid_syms_rec(grid, row as int) =~= out@ + grid_syms_rec(grid, row + 1));
        }
        row += 1;
    }
    out
}

/// Whether some symbol of `syms` touches `n`.
pub open spec fn has_adjacent_symbol(n: Number, syms: Seq<Symbol>) -> bool {
    exists|j: int| 0 <= j < syms.len() && adjacent(n, #[trigger] syms[j])
}

/// The values of the numbers among `nums` that touch some symbol of `syms`.
pub open spec fn part_values_rec(nums: Seq<Number>, syms: Seq<Symbol>) -> Seq<u32>
    decreases nums.len(),
{
    if nums.len() == 0 {
        Seq::empty()
    } else {
        (if has_adjacent_symbol(nums[0], syms) {
            seq![nums[0].number]
        } else {
            Seq::empty()
        }) + part_values_rec(nums.drop_first(), syms)
    }
}

/// The part numbers of a grid: the values of the numbers adjacent to at
/// least one symbol, in extraction order.
pub open spec fn part_values(lines: Seq<Seq<char>>) -> Seq<u32> {
    part_values_rec(grid_numbers(lines), grid_symbols(lines))
}

/// Whether some symbol of `syms` touches `n`.
fn any_adjacent(n: &Number, syms: &Vec<Symbol>) -> (b: bool)
    ensures
        b == has_adjacent_symbol(*n, syms@),
{
    let mut j: usize = 0;
    while j < syms.len()
        invariant
            0 <= j <= syms@.len(),
            forall|k: int| 0 <= k < j ==> !adjacent(*n, #[trigger] syms@[k]),
        decreases syms@.len() - j,
    {
        if n.is_adjacent(&syms[j]) {
            return true;
        }
        j += 1;
    }
    false
}

/// The part numbers of the grid: values of numbers adjacent to at least one
/// symbol. The grid is read with trailing newlines trimmed.
pub fn get_part_numbers(input: &Input) -> (r: Vec<u32>)
    requires
        grid_runs_fit(split_lines(trim_newlines(input@))),
    ensures
        r@ == part_values(split_lines(trim_newlines(input@))),
{
    let ghost grid = split_lines(trim_newlines(input@));
    let trimmed = input.trim_trailing_newlines();
    let symbols = get_symbols_from_input(&trimmed);
    let numbers = get_numbers_from_input(&trimmed);
    let mut out: Vec<u32> = Vec::new();
    let mut k: usize = 0;
    proof {
        assert(numbers@.skip(0) =~= numbers@);
        assert(out@ + part_values_rec(numbers@, symbols@) =~= part_values(grid));
    }
    while k < numbers.len()
        invariant
            0 <= k <= numbers@.len(),
            numbers@ == grid_numbers(grid),
            symbols@ == grid_symbols(grid),
            out@ + part_values_rec(numbers@.skip(k as int), symbols@) == part_values(grid),
        decreases numbers@.len() - k,
    {
        let ghost pre = out@;
        proof {
            assert(numbers@.skip(k as int)[0] == numbers@[k as int]);
            assert(numbers@.skip(k as int).drop_first() =~= numbers@.skip(k + 1));
        }
        if any_adjacent(&numbers[k], &symbols) {
            out.push(numbers[k].number);
        }
        proof {
            assert(pre + part_values_rec(numbers@.skip(k as int), symbols@) =~= out@
                + part_values_rec(numbers@.skip(k + 1), symbols@));
        }
        k += 1;
    }
    out
}

/// The numbers among `nums` that touch `s`, in order.
pub open spec fn adjacent_numbers(nums: Seq<Number>, s: Symbol) -> Seq<Number>
    decreases nums.len(),
{
    if nums.len() == 0 {
        Seq::empty()
    } else {
        (if adjacent(nums[0], s) {
            seq![nums[0]]
        } else {
            Seq::empty()
        }) + adjacent_numbers(nums.drop_first(), s)
    }
}

/// What one symbol adds to the gear ratios: the product of the two adjacent
/// number values if the symbol is `*` with exactly two, nothing otherwise.
pub open spec fn gear_contribution(nums: Seq<Number>, s: Symbol) -> Seq<u32> {
    let adj = adjacent_numbers(nums, s);
    if s.symbol == '*' && adj.len() == 2 {
        seq![(adj[0].number * adj[1].number) as u32]
    } else {
        Seq::empty()
    }
}

/// The gear ratios contributed by `syms`, symbol by symbol.
pub open spec fn gear_values_rec(nums: Seq<Number>, syms: Seq<Symbol>) -> Seq<u32>
    decreases syms.len(),
{
    if syms.len() == 0 {
        Seq::empty()
    } else {
        gear_contribution(nums, syms[0]) + gear_values_rec(nums, syms.drop_first())
    }
}

/// The gear ratios of a grid: one product per `*` symbol with exactly two
/// adjacent numbers, in symbol order.
pub open spec fn gear_values(lines: Seq<Seq<char>>) -> Seq<u32> {
    gear_values_rec(grid_numbers(lines), grid_symbols(lines))
}

/// The product of a gear's two adjacent number values fits in a `u32`.
pub open spec fn gear_fits(nums: Seq<Number>, s: Symbol) -> bool {
    adjacent_numbers(nums, s).len() == 2 ==> adjacent_numbers(nums, s)[0].number
        * adjacent_numbers(nums, s)[1].number <= u32::MAX
}

/// `gear_fits`, for every symbol of the grid.
pub open spec fn gear_products_fit(nums: Seq<Number>, syms: Seq<Symbol>) -> bool {
    forall|j: int| 0 <= j < syms.len() ==> gear_fits(nums, #[trigger] syms[j])
}

/// Relies on itertools' `Itertools::collect_tuple` at pair size: `Some` of
/// the first two items, in order, exactly when the iterator yields two.
#[verifier::external_body]
fn collect_pair<T>(v: Vec<T>) -> (r: Option<(T, T)>)
    ensures
        v@.len() == 2 ==> r == Some((v@[0], v@[1])),
        v@.len() != 2 ==> r is None,
{
    v.into_iter().collect_tuple()
}

/// The numbers among `nums` that touch `s`.
fn filter_adjacent(nums: &Vec<Number>, s: &Symbol) -> (r: Vec<Number>)
    ensures
        r@ == adjacent_numbers(nums@, *s),
{
    let mut out: Vec<Number> = Vec::new();
    let mut k: usize = 0;
    proof {
        assert(nums@.skip(0) =~= nums@);
        assert(out@ + adjacent_numbers(nums@, *s) =~= adjacent_numbers(nums@, *s));
    }
    while k < nums.len()
        invariant
            0 <= k <= nums@.len(),
            out@ + adjacent_numbers(nums@.skip(k as int), *s) == adjacent_numbers(nums@, *s),
        decreases nums@.len() - k,
    {
        let ghost pre = out@;
        proof {
            assert(nums@.skip(k as int)[0] == nums@[k as int]);
            assert(nums@.skip(k as int).drop_first() =~= nums@.skip(k + 1));
        }
        if nums[k].is_adjacent(s) {
            out.push(nums[k]);
        }
        proof {
            assert(pre + adjacent_numbers(nums@.skip(k as int), *s) =~= out@ + adjacent_numbers(
                nums@.skip(k + 1),
                *s,
            ));
        }
        k += 1;
    }
    out
}

/// The gear ratios of the grid: one product per `*` symbol with exactly two
/// adjacent numbers. The grid is read with trailing newlines trimmed.
pub fn get_gear_ratios(input: &Input) -> (r: Vec<u32>)
    requires
        grid_runs_fit(split_lines(trim_newlines(input@))),
        gear_products_fit(
            grid_numbers(split_lines(trim_newlines(input@))),
            grid_symbols(split_lines(trim_newlines(input@))),
        ),
    ensures
        r@ == gear_values(split_lines(trim_newlines(input@))),
{
    let ghost grid = split_lines(trim_newlines(input@));
    let trimmed = input.trim_trailing_newlines();
    let numbers = get_numbers_from_input(&trimmed);
    let symbols = get_symbols_from_input(&trimmed);
    let mut out: Vec<u32> = Vec::new();
    let mut k: usize = 0;
    proof {
        assert(symbols@.skip(0) =~= symbols@);
        assert(out@ + gear_values_rec(numbers@, symbols@) =~= gear_values(grid));
    }
    while k < symbols.len()
        invariant
            0 <= k <= symbols@.len(),
            numbers@ == grid_numbers(grid),
            symbols@ == grid_symbols(grid),
            gear_products_fit(numbers@, symbols@),
            out@ + gear_values_rec(numbers@, symbols@.skip(k as int)) == gear_values(grid),
        decreases symbols@.len() - k,
    {
        let ghost pre = out@;
        proof {
            assert(symbols@.skip(k as int)[0] == symbols@[k as int]);
            assert(symbols@.skip(k as int).drop_first() =~= symbols@.skip(k + 1));
            assert(gear_fits(numbers@, symbols@[k as int]));
        }
        let s = symbols[k];
        if s.symbol == '*' {
            let adj = filter_adjacent(&numbers, &s);
            match collect_pair(adj) {
                Some(pair) => {
                    out.push(pair.0.number * pair.1.number);
                },
                None => {},
            }
        }
        proof {
            assert(pre + gear_values_rec(numbers@, symbols@.skip(k as int)) =~= out@
                + gear_values_rec(numbers@, symbols@.skip(k + 1)));
        }
        k += 1;
    }
    out
}

/// The sum of a sequence of values, as an unbounded natural number.
pub open spec fn sum_of(s: Seq<u32>) -> nat
    decreases s.len(),
{
    if s.len() == 0 {
        0
    } else {
        (s[0] + sum_of(s.drop_first())) as nat
    }
}

/// The sum of the values of `v`.
fn sum_vec(v: &Vec<u32>) -> (r: u32)
    requires
        sum_of(v@) <= u32::MAX,
    ensures
        r == sum_of(v@),
{
    let mut acc: u32 = 0;
    let mut k: usize = 0;
    proof {
        assert(v@.skip(0) =~= v@);
    }
    while k < v.len()
        invariant
            0 <= k <= v@.len(),
            sum_of(v@) <= u32::MAX,
            acc + sum_of(v@.skip(k as int)) == sum_of(v@),
        decreases v@.len() - k,
    {
        proof {
            assert(v@.skip(k as int)[0] == v@[k as int]);
            assert(v@.skip(k as int).drop_first() =~= v@.skip(k + 1));
        }
        acc = acc + v[k];
        k += 1;
    }
    acc
}

/// The sum of the part numbers of the grid.
pub fn part1(input: &Input) -> (r: u32)
    requires
        grid_runs_fit(split_lines(trim_newlines(input@))),
        sum_of(part_values(split_lines(trim_newlines(input@)))) <= u32::MAX,
    ensures
        r == sum_of(part_values(split_lines(trim_newlines(input@)))),
{
    let values = get_part_numbers(input);
    sum_vec(&values)
}

/// The sum of the gear ratios of the grid.
pub fn part2(input: &Input) -> (r: u32)
    requires
        grid_runs_fit(split_lines(trim_newlines(input@))),
        gear_products_fit(
            grid_numbers(split_lines(trim_newlines(input@))),
            grid_symbols(split_lines(trim_newlines(input@))),
        ),
        sum_of(gear_values(split_lines(trim_newlines(input@)))) <= u32::MAX,
    ensures
        r == sum_of(gear_values(split_lines(trim_newlines(input@)))),
{
    let values = get_gear_ratios(input);
    sum_vec(&values)
}

/// A number token reads exactly one maximal digit run of its line: its span
/// holds digits only, the cells beside the span do not, and its value is
/// the base-10 reading of the span.
pub open spec fn number_token_wf(line: Seq<char>, row: int, t: Number) -> bool {
    &&& t.row == row
    &&& t.start <= t.end < line.len()
    &&& (forall|j: int| t.start <= j <= t.end ==> is_digit(line[j]))
    &&& (t.start == 0 || !is_digit(line[t.start - 1]))
    &&& (t.end + 1 == line.len() || !is_digit(line[t.end + 1]))
    &&& t.number == digits_value(line.subrange(t.start as int, t.end + 1)) as u32
}

/// A symbol token names one cell of its line that holds neither a digit
/// nor `.`.
pub open spec fn symbol_token_wf(line: Seq<char>, row: int, s: Symbol) -> bool {
    &&& s.row == row
    &&& s.col < line.len()
    &&& line[s.col as int] == s.symbol
    &&& !is_digit(s.symbol)
    &&& s.symbol != '.'
}

proof fn lemma_nums_rec_wf(line: Seq<char>, row: int, i: int, rs: int)
    requires
        0 <= row <= usize::MAX,
        line.len() <= usize::MAX,
        0 <= rs <= i <= line.len(),
        forall|j: int| rs <= j < i ==> is_digit(line[j]),
        rs == 0 || !is_digit(line[rs - 1]),
    ensures
        forall|k: int|
            0 <= k < nums_rec(line, row, i, rs).len() ==> number_token_wf(
                line,
                row,
                #[trigger] nums_rec(line, row, i, rs)[k],
            ),
    decreases line.len() - i,
{
    if i >= line.len() {
        if rs < i {
            let t = run_token(line, row, rs, i);
            assert(line.subrange(t.start as int, t.end + 1) == line.subrange(rs, i));
            assert(number_token_wf(line, row, t));
            assert(nums_rec(line, row, i, rs) == seq![t]);
            assert forall|k: int|
                0 <= k < nums_rec(line, row, i, rs).len() implies number_token_wf(
                line,
                row,
                #[trigger] nums_rec(line, row, i, rs)[k],
            ) by {
                assert(nums_rec(line, row, i, rs)[k] == t);
            }
        } else {
            assert(nums_rec(line, row, i, rs).len() == 0);
        }
    } else if is_digit(line[i]) {
        lemma_nums_rec_wf(line, row, i + 1, rs);
        assert(nums_rec(line, row, i, rs) == nums_rec(line, row, i + 1, rs));
        assert forall|k: int|
            0 <= k < nums_rec(line, row, i, rs).len() implies number_token_wf(
            line,
            row,
            #[trigger] nums_rec(line, row, i, rs)[k],
        ) by {
            assert(nums_rec(line, row, i, rs)[k] == nums_rec(line, row, i + 1, rs)[k]);
        }
    } else {
        lemma_nums_rec_wf(line, row, i + 1, i + 1);
        let rest = nums_rec(line, row, i + 1, i + 1);
        if rs < i {
            let t = run_token(line, row, rs, i);
            assert(line.subrange(t.start as int, t.end + 1) == line.subrange(rs, i));
            assert(number_token_wf(line, row, t));
            assert(nums_rec(line, row, i, rs) == seq![t] + rest);
            assert forall|k: int|
                0 <= k < nums_rec(line, row, i, rs).len() implies number_token_wf(
                line,
                row,
                #[trigger] nums_rec(line, row, i, rs)[k],
            ) by {
                if k == 0 {
                    assert((seq![t] + rest)[0] == t);
                } else {
                    assert((seq![t] + rest)[k] == rest[k - 1]);
                }
            }
        } else {
            assert(nums_rec(line, row, i, rs) == rest);
            assert forall|k: int|
                0 <= k < nums_rec(line, row, i, rs).len() implies number_token_wf(
                line,
                row,
                #[trigger] nums_rec(line, row, i, rs)[k],
            ) by {
                assert(nums_rec(line, row, i, rs)[k] == rest[k]);
            }
        }
    }
}

/// Every token of a line is a maximal digit run of that line.
pub proof fn lemma_line_numbers_well_formed(line: Seq<char>, row: int)
    requires
        0 <= row <= usize::MAX,
        line.len() <= usize::MAX,
    ensures
        forall|k: int|
            0 <= k < line_numbers(line, row).len() ==> number_token_wf(
                line,
                row,
                #[trigger] line_numbers(line, row)[k],
            ),
{
    lemma_nums_rec_wf(line, row, 0, 0);
}

proof fn lemma_grid_nums_rec_wf(lines: Seq<Seq<char>>, r: int)
    requires
        0 <= r,
        lines.len() <= usize::MAX,
        forall|q: int| 0 <= q < lines.len() ==> (#[trigger] lines[q]).len() <= usize::MAX,
    ensures
        forall|k: int|
            0 <= k < grid_nums_rec(lines, r).len() ==> {
                let t = #[trigger] grid_nums_rec(lines, r)[k];
                r <= t.row < lines.len() && number_token_wf(lines[t.row as int], t.row as int, t)
            },
    decreases lines.len() - r,
{
    if r < lines.len() {
        lemma_line_numbers_well_formed(lines[r], r);
        lemma_grid_nums_rec_wf(lines, r + 1);
        let head = line_numbers(lines[r], r);
        let rest = grid_nums_rec(lines, r + 1);
        assert forall|k: int| 0 <= k < grid_nums_rec(lines, r).len() implies {
            let t = #[trigger] grid_nums_rec(lines, r)[k];
            r <= t.row < lines.len() && number_token_wf(lines[t.row as int], t.row as int, t)
        } by {
            if k < head.len() {
                assert(grid_nums_rec(lines, r)[k] == head[k]);
            } else {
                assert(grid_nums_rec(lines, r)[k] == rest[k - head.len()]);
            }
        }
    }
}

/// Every token of a grid is a maximal digit run of the line at its row.
pub proof fn lemma_grid_numbers_well_formed(lines: Seq<Seq<char>>)
    requires
        lines.len() <= usize::MAX,
        forall|q: int| 0 <= q < lines.len() ==> (#[trigger] lines[q]).len() <= usize::MAX,
    ensures
        forall|k: int|
            0 <= k < grid_numbers(lines).len() ==> {
                let t = #[trigger] grid_numbers(lines)[k];
                t.row < lines.len() && number_token_wf(lines[t.row as int], t.row as int, t)
            },
{
    lemma_grid_nums_rec_wf(lines, 0);
}

proof fn lemma_syms_rec_wf(line: Seq<char>, row: int, i: int)
    requires
        0 <= row <= usize::MAX,
        line.len() <= usize::MAX,
        0 <= i,
    ensures
        forall|k: int|
            0 <= k < syms_rec(line, row, i).len() ==> symbol_token_wf(
                line,
                row,
                #[trigger] syms_rec(line, row, i)[k],
            ),
    decreases line.len() - i,
{
    if i < line.len() {
        lemma_syms_rec_wf(line, row, i + 1);
        let rest = syms_rec(line, row, i + 1);
        if !is_digit(line[i]) && line[i] != '.' {
            let s = sym_token(line, row, i);
            assert(symbol_token_wf(line, row, s));
            assert(syms_rec(line, row, i) == seq![s] + rest);
            assert forall|k: int|
                0 <= k < syms_rec(line, row, i).len() implies symbol_token_wf(
                line,
                row,
                #[trigger] syms_rec(line, row, i)[k],
            ) by {
                if k == 0 {
                    assert((seq![s] + rest)[0] == s);
                } else {
                    assert((seq![s] + rest)[k] == rest[k - 1]);
                }
            }
        } else {
            assert(syms_rec(line, row, i) == rest);
            assert forall|k: int|
                0 <= k < syms_rec(line, row, i).len() implies symbol_token_wf(
                line,
                row,
                #[trigger] syms_rec(line, row, i)[k],
            ) by {
                assert(syms_rec(line, row, i)[k] == rest[k]);
            }
        }
    }
}

/// Every symbol token of a line names a non-digit, non-`.` cell of it.
pub proof fn lemma_line_symbols_well_formed(line: Seq<char>, row: int)
    requires
        0 <= row <= usize::MAX,
        line.len() <= usize::MAX,
    ensures
        forall|k: int|
            0 <= k < line_symbols(line, row).len() ==> symbol_token_wf(
                line,
                row,
                #[trigger] line_symbols(line, row)[k],
            ),
{
    lemma_syms_rec_wf(line, row, 0);
}

proof fn lemma_grid_syms_rec_wf(lines: Seq<Seq<char>>, r: int)
    requires
        0 <= r,
        lines.len() <= usize::MAX,
        forall|q: int| 0 <= q < lines.len() ==> (#[trigger] lines[q]).len() <= usize::MAX,
    ensures
        forall|k: int|
            0 <= k < grid_syms_rec(lines, r).len() ==> {
                let s = #[trigger] grid_syms_rec(lines, r)[k];
                r <= s.row < lines.len() && symbol_token_wf(lines[s.row as int], s.row as int, s)
            },
    decreases lines.len() - r,
{
    if r < lines.len() {
        lemma_line_symbols_well_formed(lines[r], r);
        lemma_grid_syms_rec_wf(lines, r + 1);
        let head = line_symbols(lines[r], r);
        let rest = grid_syms_rec(lines, r + 1);
        assert forall|k: int| 0 <= k < grid_syms_rec(lines, r).len() implies {
            let s = #[trigger] grid_syms_rec(lines, r)[k];
            r <= s.row < lines.len() && symbol_token_wf(lines[s.row as int], s.row as int, s)
        } by {
            if k < head.len() {
                assert(grid_syms_rec(lines, r)[k] == head[k]);
            } else {
                assert(grid_syms_rec(lines, r)[k] == rest[k - head.len()]);
            }
        }
    }
}

/// Every symbol token of a grid names a non-digit, non-`.` cell of the line
/// at its row.
pub proof fn lemma_grid_symbols_well_formed(lines: Seq<Seq<char>>)
    requires
        lines.len() <= usize::MAX,
        forall|q: int| 0 <= q < lines.len() ==> (#[trigger] lines[q]).len() <= usize::MAX,
    ensures
        forall|k: int|
            0 <= k < grid_symbols(lines).len() ==> {
                let s = #[trigger] grid_symbols(lines)[k];
                s.row < lines.len() && symbol_token_wf(lines[s.row as int], s.row as int, s)
            },
{
    lemma_grid_syms_rec_wf(lines, 0);
}

/// A line without digits yields no number tokens.
pub proof fn lemma_digitless_line_has_no_numbers(line: Seq<char>, row: int)
    requires
        forall|j: int| 0 <= j < line.len() ==> !is_digit(line[j]),
    ensures
        line_numbers(line, row) == Seq::<Number>::empty(),
{
    lemma_nums_rec_digitless(line, row, 0);
}

proof fn lemma_nums_rec_digitless(line: Seq<char>, row: int, i: int)
    requires
        0 <= i <= line.len(),
        forall|j: int| i <= j < line.len() ==> !is_digit(line[j]),
    ensures
        nums_rec(line, row, i, i) == Seq::<Number>::empty(),
    decreases line.len() - i,
{
    if i < line.len() {
        lemma_nums_rec_digitless(line, row, i + 1);
    }
}

/// A line of digits and dots alone yields no symbol tokens.
pub proof fn lemma_plain_line_has_no_symbols(line: Seq<char>, row: int)
    requires
        forall|j: int| 0 <= j < line.len() ==> is_digit(line[j]) || line[j] == '.',
    ensures
        line_symbols(line, row) == Seq::<Symbol>::empty(),
{
    lemma_syms_rec_plain(line, row, 0);
}

proof fn lemma_syms_rec_plain(line: Seq<char>, row: int, i: int)
    requires
        0 <= i <= line.len(),
        forall|j: int| i <= j < line.len() ==> is_digit(line[j]) || line[j] == '.',
    ensures
        syms_rec(line, row, i) == Seq::<Symbol>::empty(),
    decreases line.len() - i,
{
    if i < line.len() {
        lemma_syms_rec_plain(line, row, i + 1);
    }
}

/// A symbol on the same row, within the number's own span, is adjacent.
pub proof fn lemma_symbol_inside_span_is_adjacent(n: Number, s: Symbol)
    requires
        n.row == s.row,
        n.start <= s.col <= n.end,
    ensures
        adjacent(n, s),
{
}

/// Tokens more than one row apart are never adjacent, whatever the columns.
pub proof fn lemma_distant_rows_never_adjacent(n: Number, s: Symbol)
    requires
        n.row + 1 < s.row || s.row + 1 < n.row,
    ensures
        !adjacent(n, s),
{
}

/// A number that starts at column zero treats a symbol at column zero on a
/// row within one as adjacent: the clamp at the left edge never underflows.
pub proof fn lemma_left_edge_is_adjacent(n: Number, s: Symbol)
    requires
        n.start == 0,
        s.col == 0,
        n.row <= s.row + 1,
        s.row <= n.row + 1,
    ensures
        adjacent(n, s),
{
}

/// A `*` symbol with three or more adjacent numbers contributes nothing to
/// the gear ratios.
pub proof fn lemma_crowded_gear_contributes_nothing(nums: Seq<Number>, s: Symbol)
    requires
        adjacent_numbers(nums, s).len() >= 3,
    ensures
        gear_contribution(nums, s) == Seq::<u32>::empty(),
{
}

} // verus!
