use crate::board::GameBoard;
use crate::model::{BoardView, GameState};
use vstd::prelude::*;

verus! {

/// What a line of input asks for.
#[derive(Clone, Copy, Debug, PartialEq, Eq, Structural)]
pub enum Command {
    /// The line holds fewer than three words: the turn is passed over.
    Skip,
    /// The first word is no action.
    Unknown,
    /// Reveal the cell at `(row, col)`.
    Reveal { row: usize, col: usize },
    /// Flip the flag of the cell at `(row, col)`.
    Flag { row: usize, col: usize },
}

/// Whether `c` is white space: one of the characters with the Unicode
/// property `White_Space`.
pub open spec fn is_space(c: char) -> bool {
    let n = c as u32;
    ||| 0x09 <= n <= 0x0D
    ||| n == 0x20
    ||| n == 0x85
    ||| n == 0xA0
    ||| n == 0x1680
    ||| 0x2000 <= n <= 0x200A
    ||| n == 0x2028
    ||| n == 0x2029
    ||| n == 0x202F
    ||| n == 0x205F
    ||| n == 0x3000
}

/// The words of a line: its longest stretches without white space, in
/// order.
pub open spec fn words_of(line: Seq<char>) -> Seq<Seq<char>>
    decreases line.len(),
{
    if line.len() == 0 {
        Seq::empty()
    } else if is_space(line.last()) {
        words_of(line.drop_last())
    } else if line.len() > 1 && !is_space(line[line.len() - 2]) {
        let before = words_of(line.drop_last());
        before.drop_last().push(before.last().push(line.last()))
    } else {
        words_of(line.drop_last()).push(seq![line.last()])
    }
}

/// The value of a decimal digit.
pub open spec fn digit_value(c: char) -> Option<nat> {
    if 48 <= c as u32 <= 57 {
        Some((c as u32 - 48) as nat)
    } else {
        None
    }
}

/// The number that a run of decimal digits writes; zero for the empty run,
/// `None` if anything in it is no digit.
pub open spec fn decimal(digits: Seq<char>) -> Option<nat>
    decreases digits.len(),
{
    if digits.len() == 0 {
        Some(0)
    } else {
        match (decimal(digits.drop_last()), digit_value(digits.last())) {
            (Some(high), Some(low)) => Some(10 * high + low),
            _ => None,
        }
    }
}

/// The digits of a word that may start with a plus sign.
pub open spec fn digits_of(word: Seq<char>) -> Seq<char> {
    if word.len() > 0 && word[0] == '+' {
        word.skip(1)
    } else {
        word
    }
}

/// The coordinate that a word names: the number it writes in decimal
/// digits, with or without a plus sign before them. A word that writes no
/// number, or one too large for the machine, names `limit`.
pub open spec fn coordinate(word: Seq<char>, limit: usize) -> usize {
    let digits = digits_of(word);
    if digits.len() == 0 {
        limit
    } else {
        match decimal(digits) {
            Some(n) => if n <= usize::MAX {
                n as usize
            } else {
                limit
            },
            None => limit,
        }
    }
}

/// Whether `word` is `full` or a shorter way to write it: not empty, and the
/// start of `full`.
pub open spec fn abbreviates(word: Seq<char>, full: Seq<char>) -> bool {
    0 < word.len() <= full.len() && word == full.take(word.len() as int)
}

/// The word that asks for a reveal.
pub open spec fn reveal_word() -> Seq<char> {
    seq!['r', 'e', 'v', 'e', 'a', 'l']
}

/// The word that asks for a flag.
pub open spec fn flag_word() -> Seq<char> {
    seq!['f', 'l', 'a', 'g']
}

/// What a line asks for on a board of `rows` by `cols`.
///
/// The line is read as words: an action, a row and a column; what follows
/// them is ignored. A row or a column that is no number counts as `rows` or
/// `cols`, which lies off the grid.
pub open spec fn command_of(line: Seq<char>, rows: usize, cols: usize) -> Command {
    let words = words_of(line);
    if words.len() < 3 {
        Command::Skip
    } else if abbreviates(words[0], reveal_word()) {
        Command::Reveal { row: coordinate(words[1], rows), col: coordinate(words[2], cols) }
    } else if abbreviates(words[0], flag_word()) {
        Command::Flag { row: coordinate(words[1], rows), col: coordinate(words[2], cols) }
    } else {
        Command::Unknown
    }
}

impl BoardView {
    /// The board after a command.
    pub open spec fn after_command(self, command: Command) -> BoardView {
        match command {
            Command::Reveal { row, col } => self.after_reveal(row as int, col as int),
            Command::Flag { row, col } => self.after_toggle_flag(row as int, col as int),
            _ => self,
        }
    }
}

/// The words of a list of character vectors.
pub open spec fn views_of(words: Seq<Vec<char>>) -> Seq<Seq<char>> {
    words.map_values(|word: Vec<char>| word@)
}

/// A line that ends in a character that is no white space has a last word.
proof fn lemma_last_word(line: Seq<char>)
    requires
        line.len() > 0,
        !is_space(line.last()),
    ensures
        words_of(line).len() > 0,
    decreases line.len(),
{
    if line.len() > 1 && !is_space(line[line.len() - 2]) {
        assert(line.drop_last().last() == line[line.len() - 2]);
        lemma_last_word(line.drop_last());
    }
}

/// The number written by the first digits of a run is no larger than the
/// number written by all of them.
proof fn lemma_decimal_prefix(digits: Seq<char>, k: int)
    requires
        0 <= k <= digits.len(),
        decimal(digits) is Some,
    ensures
        decimal(digits.take(k)) is Some,
        decimal(digits.take(k))->0 <= decimal(digits)->0,
    decreases digits.len(),
{
    if k == digits.len() {
        assert(digits.take(k) =~= digits);
    } else {
        lemma_decimal_prefix(digits.drop_last(), k);
        assert(digits.drop_last().take(k) =~= digits.take(k));
    }
}

/// Whether `c` is white space.
pub fn is_blank(c: char) -> (blank: bool)
    ensures
        blank == is_space(c),
{
    let n = c as u32;
    (0x09 <= n && n <= 0x0D) || n == 0x20 || n == 0x85 || n == 0xA0 || n == 0x1680 || (0x2000 <= n
        && n <= 0x200A) || n == 0x2028 || n == 0x2029 || n == 0x202F || n == 0x205F || n == 0x3000
}

/// The characters of a line.
fn chars_of(line: &str) -> (chars: Vec<char>)
    ensures
        chars@ == line@,
{
    let mut chars: Vec<char> = Vec::new();
    for c in it: line.chars()
        invariant
            it.seq() == line@,
            chars@ == it.seq().take(it.index() as int),
    {
        chars.push(c);
        assert(it.seq().take(it.index() + 1) =~= it.seq().take(it.index() as int).push(c));
    }
    assert(line@.take(line@.len() as int) =~= line@);
    chars
}

/// Splits a line into its words.
pub fn split_words(line: &str) -> (words: Vec<Vec<char>>)
    ensures
        views_of(words@) == words_of(line@),
{
    let chars = chars_of(line);
    let mut words: Vec<Vec<char>> = Vec::new();
    let mut inside = false;
    let mut i: usize = 0;
    assert(chars@.take(0) =~= Seq::empty());
    assert(views_of(words@) =~= Seq::empty());
    while i < chars.len()
        invariant
            i <= chars@.len(),
            views_of(words@) == words_of(chars@.take(i as int)),
            inside == (i > 0 && !is_space(chars@[i - 1])),
        decreases chars@.len() - i,
    {
        let c = chars[i];
        let ghost seen = chars@.take(i as int);
        let ghost longer = chars@.take(i + 1);
        let ghost before = views_of(words@);
        proof {
            assert(longer.drop_last() =~= seen);
            assert(longer.last() == c);
            if i > 0 {
                assert(longer[longer.len() - 2] == chars@[i - 1]);
                assert(seen.last() == chars@[i - 1]);
            }
        }
        if is_blank(c) {
            inside = false;
        } else if inside {
            proof {
                lemma_last_word(seen);
            }
            let last = words.len() - 1;
            words[last].push(c);
            assert(views_of(words@) =~= before.drop_last().push(before.last().push(c)));
            inside = true;
        } else {
            let mut word: Vec<char> = Vec::new();
            word.push(c);
            words.push(word);
            assert(views_of(words@) =~= before.push(seq![c]));
            inside = true;
        }
        i += 1;
    }
    assert(chars@.take(chars@.len() as int) =~= chars@);
    words
}

/// Whether `word` is `full` or a shorter way to write it.
fn is_abbreviation(word: &Vec<char>, full: &Vec<char>) -> (yes: bool)
    ensures
        yes == abbreviates(word@, full@),
{
    if word.len() == 0 || word.len() > full.len() {
        return false;
    }
    let mut i: usize = 0;
    while i < word.len()
        invariant
            i <= word@.len() <= full@.len(),
            forall|k: int| 0 <= k < i ==> word@[k] == full@[k],
        decreases word@.len() - i,
    {
        if word[i] != full[i] {
            assert(full@.take(word@.len() as int)[i as int] == full@[i as int]);
            return false;
        }
        i += 1;
    }
    assert(word@ =~= full@.take(word@.len() as int));
    true
}

/// The coordinate that a word names; `limit` if it names none.
pub fn parse_coordinate(word: &Vec<char>, limit: usize) -> (n: usize)
    ensures
        n == coordinate(word@, limit),
{
    let start: usize = if word.len() > 0 && word[0] == '+' {
        1
    } else {
        0
    };
    let ghost digits = digits_of(word@);
    assert(digits =~= word@.skip(start as int));
    if start >= word.len() {
        return limit;
    }
    let mut value: usize = 0;
    let mut i: usize = start;
    assert(digits.take(0) =~= Seq::empty());
    while i < word.len()
        invariant
            start <= i <= word@.len(),
            start <= 1,
            digits == word@.skip(start as int),
            digits == digits_of(word@),
            decimal(digits.take(i - start)) == Some(value as nat),
        decreases word@.len() - i,
    {
        let c = word[i];
        let ghost longer = digits.take(i - start + 1);
        proof {
            assert(longer.drop_last() =~= digits.take(i - start));
            assert(longer.last() == c);
            assert(decimal(longer) == (match digit_value(c) {
                Some(low) => Some(10 * value as nat + low),
                None => None,
            }));
            if decimal(digits) is Some {
                lemma_decimal_prefix(digits, i - start + 1);
            }
        }
        let code = c as u32;
        if code < 48 || code > 57 {
            return limit;
        }
        let low = (code - 48) as usize;
        let next = match value.checked_mul(10) {
            Some(tens) => tens.checked_add(low),
            None => None,
        };
        match next {
            Some(sum) => {
                value = sum;
            },
            None => {
                return limit;
            },
        }
        i += 1;
    }
    assert(digits.take(digits.len() as int) =~= digits);
    value
}

/// Reads a line as a command for a board of `rows` by `cols`.
pub fn parse_command(line: &str, rows: usize, cols: usize) -> (command: Command)
    ensures
        command == command_of(line@, rows, cols),
{
    let words = split_words(line);
    if words.len() < 3 {
        return Command::Skip;
    }
    assert(views_of(words@)[0] == words@[0]@);
    assert(views_of(words@)[1] == words@[1]@);
    assert(views_of(words@)[2] == words@[2]@);
    let reveal_as: Vec<char> = vec!['r', 'e', 'v', 'e', 'a', 'l'];
    let flag_as: Vec<char> = vec!['f', 'l', 'a', 'g'];
    assert(reveal_as@ =~= reveal_word());
    assert(flag_as@ =~= flag_word());
    if is_abbreviation(&words[0], &reveal_as) {
        Command::Reveal {
            row: parse_coordinate(&words[1], rows),
            col: parse_coordinate(&words[2], cols),
        }
    } else if is_abbreviation(&words[0], &flag_as) {
        Command::Flag {
            row: parse_coordinate(&words[1], rows),
            col: parse_coordinate(&words[2], cols),
        }
    } else {
        Command::Unknown
    }
}

impl GameBoard {
    /// Carries out a command, and says where the game then stands.
    pub fn apply(&mut self, command: Command) -> (state: GameState)
        requires
            old(self)@.well_formed(),
        ensures
            final(self)@ == old(self)@.after_command(command),
            final(self)@.well_formed(),
            state == final(self)@.state(),
    {
        match command {
            Command::Reveal { row, col } => self.reveal_cell(row, col),
            Command::Flag { row, col } => self.toggle_flag(row, col),
            _ => {},
        }
        self.state()
    }

    /// Plays one turn: reads `line` as a command, carries it out, and says
    /// what was understood and where the game then stands.
    pub fn take_turn(&mut self, line: &str) -> (outcome: (Command, GameState))
        requires
            old(self)@.well_formed(),
        ensures
            outcome.0 == command_of(
                line@,
                old(self)@.rows() as usize,
                old(self)@.cols() as usize,
            ),
            final(self)@ == old(self)@.after_command(outcome.0),
            final(self)@.well_formed(),
            outcome.1 == final(self)@.state(),
    {
        let command = parse_command(line, self.rows(), self.cols());
        let state = self.apply(command);
        (command, state)
    }
}

} // verus!
