//! Shader texts that are plain enough to be read.

use crate::duration::value_of;
use vstd::prelude::*;
use vstd::string::*;

verus! {

/// What a reader of a text is in.
#[derive(Debug, Clone, Copy, PartialEq, Eq, Structural)]
pub enum Mode {
    Code,
    /// A comment to the end of the line.
    Line,
    /// A comment in comments, so many deep.
    Block(usize),
}

pub open spec fn ends_line(c: char) -> bool {
    '\u{a}' <= c <= '\u{d}' || c == '\u{85}' || c == '\u{2028}' || c == '\u{2029}'
}

pub open spec fn is_blank(c: char) -> bool {
    c == ' ' || c == '\u{9}' || c == '\u{200e}' || c == '\u{200f}' || ends_line(c)
}

/// `c` is part of a word or a number.
pub open spec fn in_word(c: char) -> bool {
    'a' <= c <= 'z' || 'A' <= c <= 'Z' || '0' <= c <= '9' || c == '_' || (c > '\u{7f}' && !is_blank(c))
}

/// How far a text is read: its tokens so far, a word that is being read, and the
/// last character where it matters.
#[verifier::ext_equal]
pub struct Reading {
    pub tokens: Seq<Seq<char>>,
    pub word: Seq<char>,
    pub mode: Mode,
    pub prev: char,
}

impl Reading {
    /// The word that is being read ends.
    pub open spec fn ended(self) -> Reading {
        if self.word.len() > 0 {
            Reading { tokens: self.tokens.push(self.word), word: Seq::empty(), ..self }
        } else {
            self
        }
    }

    /// A slash that opens no comment is a token.
    pub open spec fn settled(self) -> Reading {
        if self.prev == '/' {
            Reading { tokens: self.tokens.push(seq!['/']), prev: ' ', ..self }
        } else {
            self
        }
    }

    /// One more character of code, which neither opens a comment nor is a slash.
    pub open spec fn took(self, c: char) -> Reading {
        if in_word(c) {
            Reading { word: self.word.push(c), ..self }
        } else if is_blank(c) {
            self.ended()
        } else {
            Reading { tokens: self.ended().tokens.push(seq![c]), ..self.ended() }
        }
    }

    /// One more character.
    pub open spec fn then_reads(self, c: char) -> Reading {
        match self.mode {
            Mode::Line => if ends_line(c) {
                Reading { mode: Mode::Code, ..self }
            } else {
                self
            },
            Mode::Block(depth) => if self.prev == '*' && c == '/' {
                Reading {
                    mode: if depth <= 1 {
                        Mode::Code
                    } else {
                        Mode::Block((depth - 1) as usize)
                    },
                    prev: ' ',
                    ..self
                }
            } else if self.prev == '/' && c == '*' {
                Reading { mode: Mode::Block((depth + 1) as usize), prev: ' ', ..self }
            } else {
                Reading { prev: c, ..self }
            },
            Mode::Code => if self.prev == '/' && c == '/' {
                Reading { mode: Mode::Line, prev: ' ', ..self }
            } else if self.prev == '/' && c == '*' {
                Reading { mode: Mode::Block(1), prev: ' ', ..self }
            } else if c == '/' {
                Reading { prev: '/', ..self.settled().ended() }
            } else {
                self.settled().took(c)
            },
        }
    }
}

/// The first `n` characters of a text, read.
pub open spec fn reading(text: Seq<char>, n: nat) -> Reading
    decreases n,
{
    if n == 0 {
        Reading { tokens: Seq::empty(), word: Seq::empty(), mode: Mode::Code, prev: ' ' }
    } else {
        reading(text, (n - 1) as nat).then_reads(text[n - 1])
    }
}

/// The tokens of a text: its words and numbers, and one for each other sign that
/// is neither blank nor in a comment.
pub open spec fn tokens(text: Seq<char>) -> Seq<Seq<char>> {
    reading(text, text.len()).settled().ended().tokens
}

/// Token `i`, nothing beyond the last.
pub open spec fn token(t: Seq<Seq<char>>, i: int) -> Seq<char> {
    if 0 <= i < t.len() {
        t[i]
    } else {
        Seq::empty()
    }
}

/// `w` is a whole number of no more than five digits.
pub open spec fn is_small_number(w: Seq<char>) -> bool {
    let n = if w.len() > 0 && (w.last() == 'u' || w.last() == 'i') {
        w.len() - 1
    } else {
        w.len() as int
    };
    1 <= n <= 5 && forall|k: int| 0 <= k < n ==> '0' <= #[trigger] w[k] <= '9'
}

/// The number that a small number spells.
pub open spec fn small_value(w: Seq<char>) -> int {
    value_of(if w.last() == 'u' || w.last() == 'i' {
        w.drop_last()
    } else {
        w
    })
}

/// `c` is the number of rows or columns of a vector or a matrix.
pub open spec fn is_side(c: char) -> bool {
    '2' <= c <= '4'
}

/// `c` says of what a vector or a matrix is.
pub open spec fn is_suffix(c: char) -> bool {
    c == 'f' || c == 'i' || c == 'u' || c == 'h'
}

/// `w` names a type of no more than 128 bytes, whatever stands in angle brackets
/// behind it.
pub open spec fn is_flat_type(w: Seq<char>) -> bool {
    ||| w == "bool"@
    ||| w == "i32"@
    ||| w == "u32"@
    ||| w == "f32"@
    ||| w == "f16"@
    ||| w == "f64"@
    ||| w == "atomic"@
    ||| 4 <= w.len() <= 5 && w[0] == 'v' && w[1] == 'e' && w[2] == 'c' && is_side(w[3]) && (w.len() == 5 ==> is_suffix(w[4]))
    ||| 6 <= w.len() <= 7 && w[0] == 'm' && w[1] == 'a' && w[2] == 't' && is_side(w[3]) && w[4] == 'x' && is_side(w[5]) && (w.len()
        == 7 ==> is_suffix(w[6]))
}

/// What token `i` declares, if it declares a constant by the name `w`, is a small
/// number.
pub open spec fn declares_small(t: Seq<Seq<char>>, w: Seq<char>, i: int) -> bool {
    token(t, i) == "const"@ && token(t, i + 1) == w ==> {
        ||| token(t, i + 2) == "="@ && is_small_number(token(t, i + 3)) && token(t, i + 4) == ";"@
        ||| token(t, i + 2) == ":"@ && token(t, i + 4) == "="@ && is_small_number(token(t, i + 5)) && token(t, i + 6) == ";"@
    }
}

/// `w` is the length of a small array: a small number, or the name of constants
/// that are.
pub open spec fn is_small_length(t: Seq<Seq<char>>, w: Seq<char>) -> bool {
    ||| is_small_number(w)
    ||| w.len() > 0 && !('0' <= w[0] <= '9') && forall|i: int| 0 <= i < t.len() ==> #[trigger] declares_small(t, w, i)
}

/// The greatest number that one of the first `n` tokens declares the constant `w`
/// to be, where all such numbers are small.
pub open spec fn declared_most(t: Seq<Seq<char>>, w: Seq<char>, n: nat) -> int
    decreases n,
{
    if n == 0 {
        0
    } else {
        let less = declared_most(t, w, (n - 1) as nat);
        let i = n - 1;
        let value = if token(t, i) != "const"@ || token(t, i + 1) != w {
            0
        } else if token(t, i + 2) == "="@ {
            small_value(token(t, i + 3))
        } else {
            small_value(token(t, i + 5))
        };
        if value > less {
            value
        } else {
            less
        }
    }
}

/// How long an array is, at most, whose length is spelled `w`.
pub open spec fn most_of_length(t: Seq<Seq<char>>, w: Seq<char>) -> int {
    if is_small_number(w) {
        small_value(w)
    } else {
        declared_most(t, w, t.len())
    }
}

/// Where the angle bracket closes that is open `depth` times before token `j`.
pub open spec fn close_from(t: Seq<Seq<char>>, j: int, depth: int) -> int
    decreases t.len() - j,
{
    if j < 0 || j >= t.len() {
        t.len() as int
    } else if t[j] == "<"@ {
        close_from(t, j + 1, depth + 1)
    } else if t[j] == ">"@ {
        if depth <= 1 {
            j
        } else {
            close_from(t, j + 1, depth - 1)
        }
    } else {
        close_from(t, j + 1, depth)
    }
}

/// `w` is a word, or a sign that types are put together with.
pub open spec fn in_types(w: Seq<char>) -> bool {
    w.len() > 0 && (in_word(w[0]) || w == "<"@ || w == ">"@ || w == ","@)
}

/// Token `i` names an array type with arguments.
pub open spec fn names_array(t: Seq<Seq<char>>, i: int) -> bool {
    token(t, i) == "array"@ && token(t, i + 1) == "<"@
}

/// Where the arguments of the array type at token `i` end.
pub open spec fn array_end(t: Seq<Seq<char>>, i: int) -> int {
    close_from(t, i + 2, 1)
}

/// The array type at token `i` has a length.
pub open spec fn has_length(t: Seq<Seq<char>>, i: int) -> bool {
    token(t, array_end(t, i) - 2) == ","@
}

/// If token `i` names an array type with arguments, they are types, but for a
/// small length.
pub open spec fn array_is_small(t: Seq<Seq<char>>, i: int) -> bool {
    names_array(t, i) ==> {
        &&& array_end(t, i) < t.len()
        &&& forall|k: int| i < k < array_end(t, i) ==> in_types(#[trigger] t[k])
        &&& has_length(t, i) ==> is_small_length(t, token(t, array_end(t, i) - 1))
    }
}

/// How many items the array at token `i` has, at most, where its length is
/// small; one if it has no length.
pub open spec fn most_items(t: Seq<Seq<char>>, i: int) -> int {
    if has_length(t, i) {
        most_of_length(t, token(t, array_end(t, i) - 1))
    } else {
        1
    }
}

/// The token that names what is in the array at token `i`, and in the arrays in
/// it, in the end.
pub open spec fn leaf_at(t: Seq<Seq<char>>, i: int) -> int
    decreases t.len() + 2 - i,
{
    if 0 <= i < t.len() && names_array(t, i) {
        leaf_at(t, i + 2)
    } else {
        i
    }
}

/// How many of those are in it, at most, with padding.
pub open spec fn all_items(t: Seq<Seq<char>>, i: int) -> int
    decreases t.len() + 2 - i,
{
    if 0 <= i < t.len() && names_array(t, i) {
        4 * most_items(t, i) * all_items(t, i + 2)
    } else {
        1
    }
}

/// The arguments of the array type at token `i`, if it is one, are types, but for
/// a small length, and so are those of the arrays in it.
pub open spec fn arrays_are_small(t: Seq<Seq<char>>, i: int) -> bool
    decreases t.len() + 2 - i,
{
    0 <= i < t.len() && names_array(t, i) ==> {
        &&& array_is_small(t, i)
        &&& arrays_are_small(t, i + 2)
        &&& all_items(t, i) <= MOST_BULK
    }
}

/// Token `i` names an array that is no item of another.
pub open spec fn names_outermost(t: Seq<Seq<char>>, i: int) -> bool {
    names_array(t, i) && !(token(t, i - 1) == "<"@ && token(t, i - 2) == "array"@)
}

/// The commas from token `i` on to the next semicolon.
pub open spec fn commas_from(t: Seq<Seq<char>>, i: int) -> int
    decreases t.len() - i,
{
    if i < 0 || i >= t.len() || t[i] == ";"@ {
        0
    } else {
        commas_from(t, i + 1) + if t[i] == ","@ {
            1int
        } else {
            0
        }
    }
}

/// If token `i` asks for a size or an alignment, the number is small.
pub open spec fn attribute_is_small(t: Seq<Seq<char>>, i: int) -> bool {
    (token(t, i) == "size"@ || token(t, i) == "align"@) && token(t, i - 1) == "@"@ ==> token(t, i + 1) == "("@ && is_small_number(
        token(t, i + 2),
    ) && token(t, i + 3) == ")"@
}

/// Token `i` asks for no array of bindings, which is no part of the language.
pub open spec fn is_standard(t: Seq<Seq<char>>, i: int) -> bool {
    token(t, i) != "binding_array"@
}

/// `w` is a sign that may nest or join expressions.
pub open spec fn nests(w: Seq<char>) -> bool {
    w.len() == 1 && !in_word(w[0]) && w[0] != ',' && w[0] != ':' && w[0] != '@'
}

/// `w` ends a statement, or opens or closes a block.
pub open spec fn parts(w: Seq<char>) -> bool {
    w == ";"@ || w == "{"@ || w == "}"@
}

/// What nests in an expression between two brackets: in what was read last, up to
/// a comma, and in what nests deepest before that.
#[derive(Debug, Clone, Copy, PartialEq, Eq, Structural)]
pub struct Level {
    pub here: u64,
    pub most: u64,
}

impl Level {
    pub open spec fn deepest(self) -> u64 {
        if self.here > self.most {
            self.here
        } else {
            self.most
        }
    }

    pub open spec fn and(self, more: int) -> Level {
        Level { here: (self.here + more) as u64, ..self }
    }
}

/// The sum of what nests on all levels.
pub open spec fn all_levels(levels: Seq<Level>) -> int
    decreases levels.len(),
{
    if levels.len() == 0 {
        0
    } else {
        all_levels(levels.drop_last()) + levels.last().deepest()
    }
}

/// The sum of `parts`.
pub open spec fn all_parts(parts: Seq<u64>) -> int
    decreases parts.len(),
{
    if parts.len() == 0 {
        0
    } else {
        all_parts(parts.drop_last()) + parts.last()
    }
}

/// The cost of a block, a further branch, a call and another sign, in the stack
/// that a reader needs to descend into it.
pub const BLOCK_COST: u64 = 50;

pub const BRANCH_COST: u64 = 25;

pub const CALL_COST: u64 = 80;

pub const SIGN_COST: u64 = 25;

/// The most that descents may cost.
pub const MOST_COST: u64 = 1500;

/// The most declarations that are read.
pub const MOST_ITEMS: u64 = 1000;

/// The most bytes that types may come to.
pub const MOST_BULK: u64 = 1073741824;

/// The bytes that are counted for a flat type, and for the padding around it.
pub const FLAT_BULK: u64 = 256;

/// The longest text that is read.
pub const MOST_CHARS: usize = 262144;

/// The measures of how intricate the first tokens of a text are.
#[verifier::ext_equal]
pub struct Weight {
    /// The blocks that are open, and what is not in a block first: what the
    /// branches of the condition that is read in each of them cost.
    pub blocks: Seq<u64>,
    /// The brackets that are open in the statement, and the statement itself
    /// first.
    pub levels: Seq<Level>,
    /// Declarations that have ended.
    pub items: u64,
    /// A structure or another name for a type is being declared.
    pub declares: bool,
    /// The bytes of all flat types in declarations, and padding around them.
    pub flats: u64,
    /// How many times all of that is in one type that has a name, at most.
    pub factor: u64,
    /// How many times such a type is in an array that has none, at most.
    pub times: u64,
    /// The bytes of all flat types in other arrays, and padding around them.
    pub loose: u64,
    /// How many times all of that is in an array that is put together of values,
    /// at most.
    pub copies: u64,
}

/// `levels` with the last one replaced.
pub open spec fn with_last<T>(levels: Seq<T>, last: T) -> Seq<T> {
    levels.drop_last().push(last)
}

impl Weight {
    /// The blocks that are open after token `i`.
    pub open spec fn blocks_with(self, t: Seq<Seq<char>>, i: int) -> Seq<u64> {
        let w = token(t, i);
        if w == "{"@ {
            self.blocks.push(0)
        } else if w == "}"@ {
            let left = if self.blocks.len() > 1 {
                self.blocks.drop_last()
            } else {
                self.blocks
            };
            if token(t, i + 1) == "else"@ {
                left
            } else {
                with_last(left, 0)
            }
        } else if w == "else"@ {
            with_last(self.blocks, (self.blocks.last() + BRANCH_COST) as u64)
        } else if w == ";"@ {
            with_last(self.blocks, 0)
        } else {
            self.blocks
        }
    }

    /// The brackets that are open after token `i`.
    pub open spec fn levels_with(self, t: Seq<Seq<char>>, i: int) -> Seq<Level> {
        let w = token(t, i);
        let last = self.levels.last();
        if parts(w) {
            seq![Level { here: 0, most: 0 }]
        } else if w == "("@ || w == "["@ {
            let calls = w == "("@ && token(t, i - 1).len() > 0 && in_word(token(t, i - 1)[0]);
            with_last(
                self.levels,
                last.and(if calls {
                    CALL_COST as int
                } else {
                    SIGN_COST as int
                }),
            ).push(Level { here: 0, most: 0 })
        } else if w == ")"@ || w == "]"@ {
            if self.levels.len() > 1 {
                let left = self.levels.drop_last();
                with_last(left, left.last().and(last.deepest() as int))
            } else {
                self.levels
            }
        } else if w == ","@ {
            if token(t, i + 2) == ">"@ {
                self.levels
            } else {
                with_last(self.levels, Level { here: 0, most: last.deepest() })
            }
        } else if nests(w) {
            with_last(self.levels, last.and(SIGN_COST as int))
        } else {
            self.levels
        }
    }

    /// Whether a declaration is open after token `i`.
    pub open spec fn declares_with(self, t: Seq<Seq<char>>, i: int) -> bool {
        let w = token(t, i);
        if w == "struct"@ || w == "alias"@ || w == "type"@ {
            true
        } else if w == "}"@ || w == ";"@ {
            false
        } else {
            self.declares
        }
    }

    /// Token `i` gives a member a type that is not flat, nor an array.
    pub open spec fn names_member(self, t: Seq<Seq<char>>, i: int) -> bool {
        token(t, i) == ":"@ && self.declares && !is_flat_type(token(t, i + 1)) && token(t, i + 1) != "array"@
    }

    /// The bytes of flat types in declarations after token `i`.
    pub open spec fn flats_with(self, t: Seq<Seq<char>>, i: int) -> int {
        let w = token(t, i);
        if w == ":"@ && self.declares {
            self.flats + FLAT_BULK
        } else if self.declares && names_outermost(t, i) && is_flat_type(token(t, leaf_at(t, i))) {
            self.flats + FLAT_BULK * all_items(t, i)
        } else if (w == "size"@ || w == "align"@) && token(t, i - 1) == "@"@ {
            self.flats + 4 * small_value(token(t, i + 2))
        } else {
            self.flats as int
        }
    }

    /// The factor after token `i`. A member or an item of a type that is not flat
    /// may be all that there is otherwise, with as much padding around it.
    pub open spec fn factor_with(self, t: Seq<Seq<char>>, i: int) -> int {
        if self.names_member(t, i) {
            4 * self.factor
        } else if self.declares && names_outermost(t, i) && !is_flat_type(token(t, leaf_at(t, i))) {
            all_items(t, i) * self.factor
        } else {
            self.factor as int
        }
    }

    /// How many times types that have a name are in an array that has none after
    /// token `i`, at most.
    pub open spec fn times_with(self, t: Seq<Seq<char>>, i: int) -> int {
        if !self.declares && names_outermost(t, i) && !is_flat_type(token(t, leaf_at(t, i))) && all_items(t, i) > self.times {
            all_items(t, i)
        } else {
            self.times as int
        }
    }

    /// The bytes of flat types in other arrays after token `i`.
    pub open spec fn loose_with(self, t: Seq<Seq<char>>, i: int) -> int {
        if !self.declares && names_outermost(t, i) && is_flat_type(token(t, leaf_at(t, i))) {
            self.loose + FLAT_BULK * all_items(t, i)
        } else {
            self.loose as int
        }
    }

    /// How many times all of that is in an array of values after token `i`, at most.
    pub open spec fn copies_with(self, t: Seq<Seq<char>>, i: int) -> int {
        if token(t, i) == "array"@ && token(t, i + 1) == "("@ {
            4 * (commas_from(t, i) + 1) * self.copies
        } else {
            self.copies as int
        }
    }

    /// One token more, where what it is about is plain.
    pub open spec fn with(self, t: Seq<Seq<char>>, i: int) -> Weight {
        let w = token(t, i);
        let blocks = self.blocks_with(t, i);
        Weight {
            blocks,
            levels: self.levels_with(t, i),
            items: (if blocks.len() == 1 && (w == ";"@ || w == "}"@) {
                self.items + 1
            } else {
                self.items as int
            }) as u64,
            declares: self.declares_with(t, i),
            flats: self.flats_with(t, i) as u64,
            factor: self.factor_with(t, i) as u64,
            times: self.times_with(t, i) as u64,
            loose: self.loose_with(t, i) as u64,
            copies: self.copies_with(t, i) as u64,
        }
    }

    /// What it costs to descend to where the last token is.
    pub open spec fn cost(self) -> int {
        BLOCK_COST * (self.blocks.len() - 1) + all_parts(self.blocks) + all_levels(self.levels)
    }

    /// No more than is read.
    pub open spec fn is_light(self) -> bool {
        &&& self.blocks.len() > 0
        &&& self.levels.len() > 0
        &&& self.cost() <= MOST_COST
        &&& self.items <= MOST_ITEMS
        &&& self.flats <= MOST_BULK
        &&& self.factor <= MOST_BULK
        &&& self.times <= MOST_BULK
        &&& self.loose <= MOST_BULK
        &&& self.copies <= MOST_BULK
        &&& self.flats * self.factor <= MOST_BULK
        &&& self.flats * self.factor * self.times <= MOST_BULK
        &&& (self.flats * self.factor * self.times + self.loose) * self.copies <= MOST_BULK
    }
}

/// How intricate the first `n` tokens are.
pub open spec fn weight(t: Seq<Seq<char>>, n: nat) -> Weight
    decreases n,
{
    if n == 0 {
        Weight {
            blocks: seq![0],
            levels: seq![Level { here: 0, most: 0 }],
            items: 0,
            declares: false,
            flats: FLAT_BULK,
            factor: 1,
            times: 1,
            loose: 0,
            copies: 1,
        }
    } else {
        weight(t, (n - 1) as nat).with(t, n - 1)
    }
}

/// Token `i` is in ASCII. Comments need not be.
pub open spec fn is_ascii(t: Seq<Seq<char>>, i: int) -> bool {
    forall|k: int| 0 <= k < token(t, i).len() ==> #[trigger] token(t, i)[k] <= '\u{7f}'
}

/// Token `i` is in ASCII and standard, and asks for nothing that is not small.
pub open spec fn token_is_plain(t: Seq<Seq<char>>, i: int) -> bool {
    &&& is_ascii(t, i)
    &&& is_standard(t, i)
    &&& arrays_are_small(t, i)
    &&& attribute_is_small(t, i)
}

/// A text is plain: it is not too long, is in ASCII but for its comments, nests
/// nothing deeply, and asks for nothing large.
pub open spec fn is_plain(text: Seq<char>) -> bool {
    &&& text.len() <= MOST_CHARS
    &&& forall|i: int| 0 <= i < tokens(text).len() ==> #[trigger] token_is_plain(tokens(text), i)
    &&& forall|n: nat| n <= tokens(text).len() ==> (#[trigger] weight(tokens(text), n)).is_light()
}

/// What is read of tokens.
pub open spec fn read_off(tokens: Seq<Vec<char>>) -> Seq<Seq<char>> {
    tokens.map_values(|v: Vec<char>| v@)
}

fn line_ends(c: char) -> (r: bool)
    ensures
        r == ends_line(c),
{
    '\u{a}' <= c && c <= '\u{d}' || c == '\u{85}' || c == '\u{2028}' || c == '\u{2029}'
}

fn blank(c: char) -> (r: bool)
    ensures
        r == is_blank(c),
{
    c == ' ' || c == '\u{9}' || c == '\u{200e}' || c == '\u{200f}' || line_ends(c)
}

fn wordy(c: char) -> (r: bool)
    ensures
        r == in_word(c),
{
    'a' <= c && c <= 'z' || 'A' <= c && c <= 'Z' || '0' <= c && c <= '9' || c == '_' || (c > '\u{7f}' && !blank(c))
}

/// A text that is being read.
struct Reader {
    tokens: Vec<Vec<char>>,
    word: Vec<char>,
    mode: Mode,
    prev: char,
}

impl Reader {
    spec fn read(self) -> Reading {
        Reading { tokens: read_off(self.tokens@), word: self.word@, mode: self.mode, prev: self.prev }
    }

    fn end_word(&mut self)
        ensures
            final(self).read() == old(self).read().ended(),
    {
        if self.word.len() > 0 {
            let mut word: Vec<char> = Vec::new();
            std::mem::swap(&mut word, &mut self.word);
            let ghost before = self.tokens@;
            let ghost w = word@;
            self.tokens.push(word);
            assert(read_off(self.tokens@) =~= read_off(before).push(w));
            assert(self.word@ =~= Seq::empty());
        }
    }

    fn push_sign(&mut self, c: char)
        ensures
            final(self).read() == (Reading { tokens: old(self).read().tokens.push(seq![c]), ..old(self).read() }),
    {
        let ghost before = self.tokens@;
        let mut sign: Vec<char> = Vec::new();
        sign.push(c);
        assert(sign@ =~= seq![c]);
        self.tokens.push(sign);
        assert(read_off(self.tokens@) =~= read_off(before).push(seq![c]));
    }

    fn settle(&mut self)
        ensures
            final(self).read() == old(self).read().settled(),
    {
        if self.prev == '/' {
            self.push_sign('/');
            self.prev = ' ';
        }
    }

    fn next(&mut self, c: char)
        requires
            old(self).mode matches Mode::Block(depth) ==> depth < usize::MAX,
        ensures
            final(self).read() == old(self).read().then_reads(c),
            final(self).mode matches Mode::Block(d) ==> d <= 1 || (old(self).mode matches Mode::Block(e) && d <= e + 1),
    {
        match self.mode {
            Mode::Line => {
                if line_ends(c) {
                    self.mode = Mode::Code;
                }
            },
            Mode::Block(depth) => {
                if self.prev == '*' && c == '/' {
                    self.mode = if depth <= 1 { Mode::Code } else { Mode::Block(depth - 1) };
                    self.prev = ' ';
                } else if self.prev == '/' && c == '*' {
                    self.mode = Mode::Block(depth + 1);
                    self.prev = ' ';
                } else {
                    self.prev = c;
                }
            },
            Mode::Code => {
                if self.prev == '/' && c == '/' {
                    self.mode = Mode::Line;
                    self.prev = ' ';
                } else if self.prev == '/' && c == '*' {
                    self.mode = Mode::Block(1);
                    self.prev = ' ';
                } else if c == '/' {
                    self.settle();
                    self.end_word();
                    self.prev = '/';
                } else {
                    self.settle();
                    if wordy(c) {
                        self.word.push(c);
                    } else if blank(c) {
                        self.end_word();
                    } else {
                        self.end_word();
                        self.push_sign(c);
                    }
                }
            },
        }
    }
}

/// The tokens of a text.
fn tokens_of(text: &Vec<char>) -> (t: Vec<Vec<char>>)
    requires
        text@.len() <= MOST_CHARS,
    ensures
        read_off(t@) == tokens(text@),
{
    let mut r = Reader { tokens: Vec::new(), word: Vec::new(), mode: Mode::Code, prev: ' ' };
    let mut i: usize = 0;
    assert(r.read() =~= reading(text@, 0));
    while i < text.len()
        invariant
            i <= text@.len() <= MOST_CHARS,
            r.read() == reading(text@, i as nat),
            r.mode matches Mode::Block(d) ==> d <= i + 1,
        decreases text@.len() - i,
    {
        r.next(text[i]);
        i = i + 1;
    }
    r.settle();
    r.end_word();
    r.tokens
}

/// A text character by character.
fn characters(text: &str) -> (cs: Vec<char>)
    ensures
        cs@ == text@,
{
    let mut cs: Vec<char> = Vec::new();
    for c in it: text.chars()
        invariant
            cs@ == it.seq().take(it.index() as int),
    {
        cs.push(c);
    }
    cs
}

fn spells(tok: &Vec<char>, name: &str) -> (r: bool)
    ensures
        r == (tok@ == name@),
{
    let n = name.unicode_len();
    if tok.len() != n {
        return false;
    }
    let mut i: usize = 0;
    while i < n
        invariant
            i <= n == name@.len(),
            tok@.len() == n,
            forall|k: int| 0 <= k < i ==> tok@[k] == name@[k],
        decreases n - i,
    {
        if tok[i] != name.get_char(i) {
            return false;
        }
        i = i + 1;
    }
    assert(tok@ =~= name@);
    true
}

/// Whether token `i` is `name`, which is not empty.
fn token_is(t: &Vec<Vec<char>>, i: usize, name: &str) -> (r: bool)
    requires
        name@.len() > 0,
    ensures
        r == (token(read_off(t@), i as int) == name@),
{
    i < t.len() && spells(&t[i], name)
}

fn small_number(w: &Vec<char>) -> (r: bool)
    ensures
        r == is_small_number(w@),
{
    if w.len() == 0 {
        return false;
    }
    let last = w[w.len() - 1];
    let n = if last == 'u' || last == 'i' { w.len() - 1 } else { w.len() };
    if n < 1 || n > 5 {
        return false;
    }
    let mut k: usize = 0;
    while k < n
        invariant
            k <= n <= w@.len(),
            n == (if w@.last() == 'u' || w@.last() == 'i' {
                w@.len() - 1
            } else {
                w@.len() as int
            }),
            w@.len() > 0,
            forall|l: int| 0 <= l < k ==> '0' <= #[trigger] w@[l] <= '9',
        decreases n - k,
    {
        if !('0' <= w[k] && w[k] <= '9') {
            assert(!('0' <= w@[k as int] <= '9'));
            return false;
        }
        k = k + 1;
    }
    true
}

/// Five digits spell less than a hundred thousand.
proof fn lemma_small_value(w: Seq<char>, n: nat)
    requires
        n <= 5,
        n <= w.len(),
        forall|k: int| 0 <= k < n ==> '0' <= #[trigger] w[k] <= '9',
    ensures
        0 <= value_of(w.take(n as int)),
        n == 0 ==> value_of(w.take(n as int)) == 0,
        n == 1 ==> value_of(w.take(n as int)) < 10,
        n == 2 ==> value_of(w.take(n as int)) < 100,
        n == 3 ==> value_of(w.take(n as int)) < 1000,
        n == 4 ==> value_of(w.take(n as int)) < 10000,
        value_of(w.take(n as int)) < 100000,
    decreases n,
{
    if n > 0 {
        lemma_small_value(w, (n - 1) as nat);
        assert(w.take(n as int).drop_last() =~= w.take(n - 1));
        assert('0' <= w[n - 1] <= '9');
    }
}

/// The number that a small number spells.
fn value_small(w: &Vec<char>) -> (r: u64)
    requires
        is_small_number(w@),
    ensures
        r == small_value(w@),
        r < 100000,
{
    let last = w[w.len() - 1];
    let n = if last == 'u' || last == 'i' { w.len() - 1 } else { w.len() };
    let mut r: u64 = 0;
    let mut k: usize = 0;
    assert(w@.take(0) =~= Seq::empty());
    while k < n
        invariant
            k <= n <= w@.len(),
            n <= 5,
            r == value_of(w@.take(k as int)),
            r < 100000,
            forall|l: int| 0 <= l < n ==> '0' <= #[trigger] w@[l] <= '9',
        decreases n - k,
    {
        assert('0' <= w@[k as int] <= '9');
        proof {
            lemma_small_value(w@, k as nat);
            lemma_small_value(w@, (k + 1) as nat);
            assert(w@.take(k + 1).drop_last() =~= w@.take(k as int));
        }
        r = 10 * r + (w[k] as u64 - '0' as u64);
        k = k + 1;
    }
    proof {
        if n == w@.len() {
            assert(w@.take(n as int) =~= w@);
        } else {
            assert(w@.take(n as int) =~= w@.drop_last());
        }
    }
    r
}

fn sided(c: char) -> (r: bool)
    ensures
        r == is_side(c),
{
    '2' <= c && c <= '4'
}

fn suffixed(c: char) -> (r: bool)
    ensures
        r == is_suffix(c),
{
    c == 'f' || c == 'i' || c == 'u' || c == 'h'
}

fn flat_type(w: &Vec<char>) -> (r: bool)
    ensures
        r == is_flat_type(w@),
{
    let n = w.len();
    spells(w, "bool") || spells(w, "i32") || spells(w, "u32") || spells(w, "f32") || spells(w, "f16") || spells(w, "f64")
        || spells(w, "atomic") || 4 <= n && n <= 5 && w[0] == 'v' && w[1] == 'e' && w[2] == 'c' && sided(w[3]) && (n == 4
        || suffixed(w[4])) || 6 <= n && n <= 7 && w[0] == 'm' && w[1] == 'a' && w[2] == 't' && sided(w[3]) && w[4] == 'x' && sided(
        w[5],
    ) && (n == 6 || suffixed(w[6]))
}

fn small_at(t: &Vec<Vec<char>>, i: usize) -> (r: bool)
    ensures
        r == is_small_number(token(read_off(t@), i as int)),
{
    i < t.len() && small_number(&t[i])
}

fn flat_at(t: &Vec<Vec<char>>, i: usize) -> (r: bool)
    ensures
        r == is_flat_type(token(read_off(t@), i as int)),
{
    proof {
        lemma_names();
    }
    i < t.len() && flat_type(&t[i])
}

/// No type has an empty name.
proof fn lemma_names()
    ensures
        !is_flat_type(Seq::empty()),
{
    reveal_strlit("bool");
    assert("bool"@.len() > 0);
    reveal_strlit("i32");
    assert("i32"@.len() > 0);
    reveal_strlit("u32");
    assert("u32"@.len() > 0);
    reveal_strlit("f32");
    assert("f32"@.len() > 0);
    reveal_strlit("f16");
    assert("f16"@.len() > 0);
    reveal_strlit("f64");
    assert("f64"@.len() > 0);
    reveal_strlit("atomic");
    assert("atomic"@.len() > 0);
    assert(Seq::<char>::empty().len() == 0);
}

fn same(a: &Vec<char>, b: &Vec<char>) -> (r: bool)
    ensures
        r == (a@ == b@),
{
    if a.len() != b.len() {
        return false;
    }
    let mut i: usize = 0;
    while i < a.len()
        invariant
            i <= a@.len() == b@.len(),
            forall|k: int| 0 <= k < i ==> a@[k] == b@[k],
        decreases a@.len() - i,
    {
        if a[i] != b[i] {
            return false;
        }
        i = i + 1;
    }
    assert(a@ =~= b@);
    true
}

proof fn lemma_signs()
    ensures
        "const"@.len() > 0,
        "="@.len() > 0,
        ";"@.len() > 0,
        ":"@.len() > 0,
        ">"@.len() > 0,
        "<"@.len() > 0,
        ","@.len() > 0,
        "array"@.len() > 0,
        "size"@.len() > 0,
        "align"@.len() > 0,
        "@"@.len() > 0,
        "("@.len() > 0,
        ")"@.len() > 0,
        "["@.len() > 0,
        "]"@.len() > 0,
        "{"@.len() > 0,
        "}"@.len() > 0,
        "struct"@.len() > 0,
        "alias"@.len() > 0,
        "type"@.len() > 0,
        "binding_array"@.len() > 0,
        "else"@.len() > 0,
        "="@ != ":"@,
        "("@ != "<"@,
        ":"@ != "array"@,
        "size"@ != "array"@,
        "align"@ != "array"@,
        ":"@ != "size"@,
        ":"@ != "align"@,
{
    reveal_strlit("const");
    reveal_strlit("=");
    reveal_strlit(";");
    reveal_strlit(":");
    reveal_strlit(">");
    reveal_strlit("<");
    reveal_strlit(",");
    reveal_strlit("array");
    reveal_strlit("size");
    reveal_strlit("align");
    reveal_strlit("@");
    reveal_strlit("(");
    reveal_strlit(")");
    reveal_strlit("[");
    reveal_strlit("]");
    reveal_strlit("{");
    reveal_strlit("}");
    reveal_strlit("struct");
    reveal_strlit("alias");
    reveal_strlit("type");
    reveal_strlit("binding_array");
    reveal_strlit("else");
    assert("="@[0] == '=' && ":"@[0] == ':' && "("@[0] == '(' && "<"@[0] == '<');
    assert("array"@[1] == 'r' && "size"@[1] == 'i' && "align"@[1] == 'l' && ":"@.len() == 1);
}

/// The greatest that an array can be whose length is token `at`, nothing if that
/// is not small.
fn small_length(t: &Vec<Vec<char>>, at: usize) -> (r: Option<u64>)
    requires
        at < t@.len() <= MOST_CHARS + 1,
    ensures
        r is Some == is_small_length(read_off(t@), t@[at as int]@),
        r matches Some(n) ==> n == most_of_length(read_off(t@), t@[at as int]@) && n < 100000,
{
    proof {
        lemma_signs();
    }
    if small_number(&t[at]) {
        return Some(value_small(&t[at]));
    }
    if t[at].len() == 0 || '0' <= t[at][0] && t[at][0] <= '9' {
        return None;
    }
    let ghost (all, w) = (read_off(t@), t@[at as int]@);
    let mut most: u64 = 0;
    let mut i: usize = 0;
    while i < t.len()
        invariant
            i <= t@.len() <= MOST_CHARS + 1,
            at < t@.len(),
            all == read_off(t@),
            w == t@[at as int]@,
            !is_small_number(w),
            w.len() > 0,
            !('0' <= w[0] <= '9'),
            "const"@.len() > 0,
            "="@.len() > 0,
            ";"@.len() > 0,
            ":"@.len() > 0,
            "="@ != ":"@,
            most < 100000,
            most == declared_most(all, w, i as nat),
            forall|k: int| 0 <= k < i ==> #[trigger] declares_small(all, w, k),
        decreases t@.len() - i,
    {
        if token_is(t, i, "const") && i + 1 < t.len() && same(&t[i + 1], &t[at]) {
            let plain = token_is(t, i + 2, "=") && small_at(t, i + 3) && token_is(t, i + 4, ";");
            let typed = token_is(t, i + 2, ":") && token_is(t, i + 4, "=") && small_at(t, i + 5) && token_is(t, i + 6, ";");
            if !plain && !typed {
                assert(!declares_small(all, w, i as int));
                return None;
            }
            let value = if plain { value_small(&t[i + 3]) } else { value_small(&t[i + 5]) };
            if value > most {
                most = value;
            }
        }
        i = i + 1;
    }
    Some(most)
}

/// Where the angle bracket closes that is open before token `from`.
fn find_close(t: &Vec<Vec<char>>, from: usize) -> (r: usize)
    requires
        t@.len() <= MOST_CHARS + 1,
    ensures
        r == close_from(read_off(t@), from as int, 1),
        r <= t@.len(),
{
    let ghost all = read_off(t@);
    let mut depth: usize = 1;
    let mut j: usize = from;
    while j < t.len()
        invariant
            all == read_off(t@),
            t@.len() <= MOST_CHARS + 1,
            from <= j,
            j <= t@.len() || j == from,
            1 <= depth <= 1 + (j - from),
            close_from(all, from as int, 1) == close_from(all, j as int, depth as int),
        decreases t@.len() - j,
    {
        if spells(&t[j], "<") {
            depth = depth + 1;
        } else if spells(&t[j], ">") {
            if depth == 1 {
                return j;
            }
            depth = depth - 1;
        }
        j = j + 1;
    }
    t.len()
}

/// The array type at token `i`, if there is one and it is small: how many items it
/// has, at most.
fn array_small(t: &Vec<Vec<char>>, i: usize) -> (r: (bool, u64))
    requires
        i < t@.len() <= MOST_CHARS + 1,
    ensures
        r.0 == array_is_small(read_off(t@), i as int),
        r.0 && names_array(read_off(t@), i as int) ==> r.1 == most_items(read_off(t@), i as int) && r.1 < 100000,
{
    proof {
        lemma_signs();
    }
    let ghost all = read_off(t@);
    if !(token_is(t, i, "array") && token_is(t, i + 1, "<")) {
        return (true, 1);
    }
    let end = find_close(t, i + 2);
    if end >= t.len() {
        return (false, 1);
    }
    proof {
        lemma_close_after(all, i + 2, 1);
    }
    let mut k: usize = i + 1;
    while k < end
        invariant
            i < k,
            i + 2 <= end < t@.len(),
            k <= end || k == i + 1,
            all == read_off(t@),
            end == array_end(all, i as int),
            names_array(all, i as int),
            forall|l: int| i < l < k ==> in_types(#[trigger] all[l]),
        decreases end - k,
    {
        let known = t[k].len() > 0 && (wordy(t[k][0]) || spells(&t[k], "<") || spells(&t[k], ">") || spells(&t[k], ","));
        if !known {
            assert(!in_types(all[k as int]));
            return (false, 1);
        }
        k = k + 1;
    }
    if !token_is(t, end - 2, ",") {
        return (true, 1);
    }
    match small_length(t, end - 1) {
        Some(n) => (true, n),
        None => (false, 1),
    }
}

proof fn lemma_close_after(t: Seq<Seq<char>>, j: int, depth: int)
    ensures
        0 <= j <= t.len() ==> close_from(t, j, depth) >= j,
    decreases t.len() - j,
{
    if 0 <= j < t.len() {
        if t[j] == "<"@ {
            lemma_close_after(t, j + 1, depth + 1);
        } else if t[j] == ">"@ {
            if depth > 1 {
                lemma_close_after(t, j + 1, depth - 1);
            }
        } else {
            lemma_close_after(t, j + 1, depth);
        }
    }
}

/// The array type at token `i`, if there is one and it and the arrays in it are
/// small: what is in it in the end, and how many of those, at most.
fn arrays_small(t: &Vec<Vec<char>>, i: usize) -> (r: (bool, usize, u64))
    requires
        i <= t@.len() + 2,
        t@.len() <= MOST_CHARS + 1,
    ensures
        r.0 == arrays_are_small(read_off(t@), i as int),
        r.0 ==> r.1 == leaf_at(read_off(t@), i as int) && r.2 == all_items(read_off(t@), i as int) && r.2 <= MOST_BULK,
    decreases t@.len() + 2 - i,
{
    proof {
        lemma_signs();
    }
    if !(token_is(t, i, "array") && token_is(t, i + 1, "<")) {
        return (true, i, 1);
    }
    let (small, most) = array_small(t, i);
    let (rest, leaf, items) = arrays_small(t, i + 2);
    if !small || !rest {
        return (false, i, 1);
    }
    assert(4 * most * items <= 4 * 100000 * 1073741824) by (nonlinear_arith)
        requires
            most <= 100000,
            items <= 1073741824,
    ;
    let all: u64 = 4 * most * items;
    (all <= MOST_BULK, leaf, all)
}

/// The commas from token `i` on to the next semicolon.
fn count_commas(t: &Vec<Vec<char>>, i: usize) -> (r: u64)
    requires
        i <= t@.len() <= MOST_CHARS + 1,
    ensures
        r == commas_from(read_off(t@), i as int),
        r <= MOST_CHARS + 1,
{
    let ghost all = read_off(t@);
    let mut end: usize = i;
    let mut n: u64 = 0;
    while end < t.len()
        invariant_except_break
            commas_from(all, i as int) == n + commas_from(all, end as int),
        invariant
            all == read_off(t@),
            i <= end <= t@.len() <= MOST_CHARS + 1,
            n <= end - i,
        ensures
            commas_from(all, i as int) == n,
        decreases t@.len() - end,
    {
        if spells(&t[end], ";") {
            break;
        }
        if spells(&t[end], ",") {
            n = n + 1;
        }
        end = end + 1;
    }
    n
}

fn attribute_small(t: &Vec<Vec<char>>, i: usize) -> (r: bool)
    requires
        i < t@.len() <= MOST_CHARS + 1,
    ensures
        r == attribute_is_small(read_off(t@), i as int),
{
    proof {
        lemma_signs();
    }
    if !(token_is(t, i, "size") || token_is(t, i, "align")) || i == 0 || !token_is(t, i - 1, "@") {
        return true;
    }
    token_is(t, i + 1, "(") && small_at(t, i + 2) && token_is(t, i + 3, ")")
}

fn ascii(t: &Vec<Vec<char>>, i: usize) -> (r: bool)
    requires
        i < t@.len(),
    ensures
        r == is_ascii(read_off(t@), i as int),
{
    let ghost w = token(read_off(t@), i as int);
    let n = t[i].len();
    let mut k: usize = 0;
    while k < n
        invariant
            i < t@.len(),
            w == token(read_off(t@), i as int),
            w == t@[i as int]@,
            k <= n == w.len(),
            forall|l: int| 0 <= l < k ==> #[trigger] w[l] <= '\u{7f}',
        decreases n - k,
    {
        if t[i][k] > '\u{7f}' {
            assert(!(w[k as int] <= '\u{7f}'));
            return false;
        }
        k = k + 1;
    }
    true
}

/// The weight of the tokens read so far.
struct Scale {
    blocks: Vec<u64>,
    levels: Vec<Level>,
    items: u64,
    declares: bool,
    flats: u64,
    factor: u64,
    times: u64,
    loose: u64,
    copies: u64,
}

/// Every part is no more than the sum.
proof fn lemma_part_within(parts: Seq<u64>, k: int)
    requires
        0 <= k < parts.len(),
    ensures
        parts[k] <= all_parts(parts),
        all_parts(parts.take(k)) <= all_parts(parts),
        0 <= all_parts(parts.take(k)),
    decreases parts.len(),
{
    lemma_parts_positive(parts.drop_last());
    if k < parts.len() - 1 {
        lemma_part_within(parts.drop_last(), k);
        assert(parts.drop_last().take(k) =~= parts.take(k));
    } else {
        assert(parts.take(k) =~= parts.drop_last());
    }
}

proof fn lemma_parts_positive(parts: Seq<u64>)
    ensures
        0 <= all_parts(parts),
    decreases parts.len(),
{
    if parts.len() > 0 {
        lemma_parts_positive(parts.drop_last());
    }
}

proof fn lemma_levels_positive(levels: Seq<Level>)
    ensures
        0 <= all_levels(levels),
    decreases levels.len(),
{
    if levels.len() > 0 {
        lemma_levels_positive(levels.drop_last());
    }
}

proof fn lemma_level_within(levels: Seq<Level>, k: int)
    requires
        0 <= k < levels.len(),
    ensures
        levels[k].deepest() <= all_levels(levels),
        all_levels(levels.take(k)) <= all_levels(levels),
        0 <= all_levels(levels.take(k)),
    decreases levels.len(),
{
    lemma_levels_positive(levels.drop_last());
    if k < levels.len() - 1 {
        lemma_level_within(levels.drop_last(), k);
        assert(levels.drop_last().take(k) =~= levels.take(k));
    } else {
        assert(levels.take(k) =~= levels.drop_last());
    }
}

fn deepest_of(l: Level) -> (r: u64)
    ensures
        r == l.deepest(),
{
    if l.here > l.most {
        l.here
    } else {
        l.most
    }
}

/// The sum of `parts`, nothing if it is more than the most that descents may cost.
fn sum_parts(parts: &Vec<u64>) -> (r: Option<u64>)
    ensures
        match r {
            Some(n) => n == all_parts(parts@) && n <= MOST_COST,
            None => all_parts(parts@) > MOST_COST,
        },
{
    let mut n: u64 = 0;
    let mut k: usize = 0;
    assert(parts@.take(0) =~= Seq::empty());
    while k < parts.len()
        invariant
            k <= parts@.len(),
            n == all_parts(parts@.take(k as int)),
            n <= MOST_COST,
        decreases parts@.len() - k,
    {
        proof {
            assert(parts@.take(k + 1).drop_last() =~= parts@.take(k as int));
            if k + 1 < parts@.len() {
                lemma_part_within(parts@, k + 1);
            } else {
                assert(parts@.take(k + 1) =~= parts@);
            }
        }
        if parts[k] > MOST_COST || n + parts[k] > MOST_COST {
            return None;
        }
        n = n + parts[k];
        k = k + 1;
    }
    assert(parts@.take(k as int) =~= parts@);
    Some(n)
}

/// The sum of what nests on all levels, nothing if it is more than the most that
/// descents may cost.
fn sum_levels(levels: &Vec<Level>) -> (r: Option<u64>)
    ensures
        match r {
            Some(n) => n == all_levels(levels@) && n <= MOST_COST,
            None => all_levels(levels@) > MOST_COST,
        },
{
    let mut n: u64 = 0;
    let mut k: usize = 0;
    assert(levels@.take(0) =~= Seq::empty());
    while k < levels.len()
        invariant
            k <= levels@.len(),
            n == all_levels(levels@.take(k as int)),
            n <= MOST_COST,
        decreases levels@.len() - k,
    {
        proof {
            assert(levels@.take(k + 1).drop_last() =~= levels@.take(k as int));
            if k + 1 < levels@.len() {
                lemma_level_within(levels@, k + 1);
            } else {
                assert(levels@.take(k + 1) =~= levels@);
            }
        }
        let deep = deepest_of(levels[k]);
        if deep > MOST_COST || n + deep > MOST_COST {
            return None;
        }
        n = n + deep;
        k = k + 1;
    }
    assert(levels@.take(k as int) =~= levels@);
    Some(n)
}

impl Scale {
    spec fn reads(self) -> Weight {
        Weight {
            blocks: self.blocks@,
            levels: self.levels@,
            items: self.items,
            declares: self.declares,
            flats: self.flats,
            factor: self.factor,
            times: self.times,
            loose: self.loose,
            copies: self.copies,
        }
    }

    fn add_to_blocks(&mut self, t: &Vec<Vec<char>>, i: usize)
        requires
            all_parts(old(self).blocks@) <= MOST_COST,
            old(self).blocks@.len() > 0,
            i < t@.len() <= MOST_CHARS + 1,
        ensures
            final(self).blocks@ == old(self).reads().blocks_with(read_off(t@), i as int),
            final(self).reads() == (Weight { blocks: final(self).blocks@, ..old(self).reads() }),
            final(self).blocks@.len() > 0,
    {
        proof {
            lemma_signs();
            lemma_part_within(self.blocks@, self.blocks@.len() - 1);
            lemma_levels_positive(self.levels@);
        }
        let ghost before = self.blocks@;
        let n = self.blocks.len();
        if spells(&t[i], "{") {
            self.blocks.push(0);
        } else if spells(&t[i], "}") {
            if n > 1 {
                let _ = self.blocks.pop();
            }
            if !token_is(t, i + 1, "else") {
                let m = self.blocks.len();
                self.blocks.set(m - 1, 0);
                assert(self.blocks@ =~= with_last(if n > 1 { before.drop_last() } else { before }, 0));
            }
        } else if spells(&t[i], "else") {
            let cost = self.blocks[n - 1] + BRANCH_COST;
            self.blocks.set(n - 1, cost);
            assert(self.blocks@ =~= with_last(before, cost));
        } else if spells(&t[i], ";") {
            self.blocks.set(n - 1, 0);
            assert(self.blocks@ =~= with_last(before, 0));
        }
    }

    fn add_to_levels(&mut self, t: &Vec<Vec<char>>, i: usize)
        requires
            all_levels(old(self).levels@) <= MOST_COST,
            old(self).levels@.len() > 0,
            i < t@.len() <= MOST_CHARS + 1,
        ensures
            final(self).levels@ == old(self).reads().levels_with(read_off(t@), i as int),
            final(self).reads() == (Weight { levels: final(self).levels@, ..old(self).reads() }),
            final(self).levels@.len() > 0,
    {
        proof {
            lemma_signs();
            lemma_level_within(self.levels@, self.levels@.len() - 1);
            if self.levels@.len() > 1 {
                lemma_level_within(self.levels@, self.levels@.len() - 2);
            }
        }
        let ghost before = self.levels@;
        let w = &t[i];
        let n = self.levels.len();
        let last = self.levels[n - 1];
        if spells(w, ";") || spells(w, "{") || spells(w, "}") {
            let mut fresh: Vec<Level> = Vec::new();
            fresh.push(Level { here: 0, most: 0 });
            self.levels = fresh;
            assert(self.levels@ =~= seq![Level { here: 0, most: 0 }]);
        } else if spells(w, "(") || spells(w, "[") {
            let calls = spells(w, "(") && i > 0 && t[i - 1].len() > 0 && wordy(t[i - 1][0]);
            let cost = if calls { CALL_COST } else { SIGN_COST };
            let deeper = Level { here: last.here + cost, most: last.most };
            self.levels.set(n - 1, deeper);
            assert(self.levels@ =~= with_last(before, deeper));
            self.levels.push(Level { here: 0, most: 0 });
        } else if spells(w, ")") || spells(w, "]") {
            if n > 1 {
                let _ = self.levels.pop();
                let under = self.levels[n - 2];
                let deeper = Level { here: under.here + deepest_of(last), most: under.most };
                self.levels.set(n - 2, deeper);
                assert(self.levels@ =~= with_last(before.drop_last(), deeper));
            }
        } else if spells(w, ",") {
            if !token_is(t, i + 2, ">") {
                let next = Level { here: 0, most: deepest_of(last) };
                self.levels.set(n - 1, next);
                assert(self.levels@ =~= with_last(before, next));
            }
        } else if w.len() == 1 && !wordy(w[0]) && w[0] != ',' && w[0] != ':' && w[0] != '@' {
            let deeper = Level { here: last.here + SIGN_COST, most: last.most };
            self.levels.set(n - 1, deeper);
            assert(self.levels@ =~= with_last(before, deeper));
        }
    }

    /// The sizes of types after token `i`, which names an array type that holds
    /// `items` of what token `leaf` names.
    fn add_to_sizes(&mut self, t: &Vec<Vec<char>>, i: usize, leaf: usize, items: u64)
        requires
            old(self).reads().is_light(),
            i < t@.len() <= MOST_CHARS + 1,
            token_is_plain(read_off(t@), i as int),
            leaf == leaf_at(read_off(t@), i as int),
            items == all_items(read_off(t@), i as int) && items <= MOST_BULK,
        ensures
            ({
                let (s0, all) = (old(self).reads(), read_off(t@));
                final(self).reads() == (Weight {
                    flats: s0.flats_with(all, i as int) as u64,
                    factor: s0.factor_with(all, i as int) as u64,
                    times: s0.times_with(all, i as int) as u64,
                    loose: s0.loose_with(all, i as int) as u64,
                    copies: s0.copies_with(all, i as int) as u64,
                    ..s0
                })
            }),
    {
        proof {
            lemma_signs();
        }
        let w = &t[i];
        let outermost = spells(w, "array") && token_is(t, i + 1, "<") && !(i > 1 && token_is(t, i - 1, "<") && token_is(
            t,
            i - 2,
            "array",
        ));
        let (factor, copies) = (self.factor, self.copies);
        if spells(w, ":") && self.declares {
            self.flats = self.flats + FLAT_BULK;
            if !flat_at(t, i + 1) && !token_is(t, i + 1, "array") {
                self.factor = 4 * factor;
            }
        } else if outermost {
            let flat = flat_at(t, leaf);
            assert(items * factor <= 1073741824 * 1073741824) by (nonlinear_arith)
                requires
                    items <= 1073741824,
                    factor <= 1073741824,
            ;
            if self.declares && flat {
                self.flats = self.flats + FLAT_BULK * items;
            } else if self.declares {
                self.factor = items * factor;
            } else if flat {
                self.loose = self.loose + FLAT_BULK * items;
            } else if items > self.times {
                self.times = items;
            }
        } else if (spells(w, "size") || spells(w, "align")) && i > 0 && token_is(t, i - 1, "@") {
            self.flats = self.flats + 4 * value_small(&t[i + 2]);
        } else if spells(w, "array") && token_is(t, i + 1, "(") {
            let n: u64 = count_commas(t, i) + 1;
            assert(4 * n * copies <= 4 * 262146 * 1073741824) by (nonlinear_arith)
                requires
                    n <= 262146,
                    copies <= 1073741824,
            ;
            self.copies = 4 * n * copies;
        }
    }

    /// Whether the sizes of types stay small.
    fn has_small_sizes(&self) -> (r: bool)
        ensures
            r == ({
                let s = self.reads();
                &&& s.flats <= MOST_BULK
                &&& s.factor <= MOST_BULK
                &&& s.times <= MOST_BULK
                &&& s.loose <= MOST_BULK
                &&& s.copies <= MOST_BULK
                &&& s.flats * s.factor <= MOST_BULK
                &&& s.flats * s.factor * s.times <= MOST_BULK
                &&& (s.flats * s.factor * s.times + s.loose) * s.copies <= MOST_BULK
            }),
    {
        let (flats, factor, times, loose, copies) = (self.flats, self.factor, self.times, self.loose, self.copies);
        if flats > MOST_BULK || factor > MOST_BULK || times > MOST_BULK || loose > MOST_BULK || copies > MOST_BULK {
            return false;
        }
        assert(flats * factor <= 1073741824 * 1073741824) by (nonlinear_arith)
            requires
                flats <= 1073741824,
                factor <= 1073741824,
        ;
        let named: u64 = flats * factor;
        if named > MOST_BULK {
            return false;
        }
        assert(named * times <= 1073741824 * 1073741824) by (nonlinear_arith)
            requires
                named <= 1073741824,
                times <= 1073741824,
        ;
        let all: u64 = named * times;
        if all > MOST_BULK {
            return false;
        }
        let sum: u64 = all + loose;
        assert(sum * copies <= 2147483648 * 1073741824) by (nonlinear_arith)
            requires
                sum <= 2147483648,
                copies <= 1073741824,
        ;
        sum * copies <= MOST_BULK
    }

    /// Adds token `i`, which is plain, and names an array type that holds `items` of
    /// what token `leaf` names. Says whether the weight stays light.
    fn add_token(&mut self, t: &Vec<Vec<char>>, i: usize, leaf: usize, items: u64) -> (light: bool)
        requires
            old(self).reads().is_light(),
            i < t@.len() <= MOST_CHARS + 1,
            token_is_plain(read_off(t@), i as int),
            leaf == leaf_at(read_off(t@), i as int),
            items == all_items(read_off(t@), i as int) && items <= MOST_BULK,
        ensures
            final(self).reads() == old(self).reads().with(read_off(t@), i as int),
            light == final(self).reads().is_light(),
    {
        proof {
            lemma_parts_positive(self.blocks@);
            lemma_levels_positive(self.levels@);
        }
        self.add_to_sizes(t, i, leaf, items);
        let small = self.has_small_sizes();
        let w = &t[i];
        let (names, ends) = (spells(w, "struct") || spells(w, "alias") || spells(w, "type"), spells(w, "}") || spells(w, ";"));
        self.add_to_blocks(t, i);
        self.add_to_levels(t, i);
        if self.blocks.len() == 1 && ends {
            self.items = self.items + 1;
        }
        self.declares = names || !ends && self.declares;
        proof {
            lemma_parts_positive(self.blocks@);
            lemma_levels_positive(self.levels@);
        }
        let (parts, levels) = (sum_parts(&self.blocks), sum_levels(&self.levels));
        let cheap = match (parts, levels) {
            (Some(a), Some(b)) => {
                let open: usize = self.blocks.len() - 1;
                open <= 30 && BLOCK_COST * (open as u64) + a + b <= MOST_COST
            },
            _ => false,
        };
        cheap && small && self.items <= MOST_ITEMS
    }
}

/// Whether a text is plain.
pub fn plain(text: &str) -> (r: bool)
    ensures
        r == is_plain(text@),
{
    let cs = characters(text);
    if cs.len() > MOST_CHARS {
        return false;
    }
    let t = tokens_of(&cs);
    let ghost all = tokens(text@);
    assert(all.len() == t@.len());
    proof {
        lemma_token_count(text@, text@.len());
        assert(all.len() <= text@.len() + 1);
    }
    let mut blocks: Vec<u64> = Vec::new();
    blocks.push(0);
    let mut levels: Vec<Level> = Vec::new();
    levels.push(Level { here: 0, most: 0 });
    let mut scale = Scale { blocks, levels, items: 0, declares: false, flats: FLAT_BULK, factor: 1, times: 1, loose: 0, copies: 1 };
    proof {
        assert(scale.reads() =~= weight(all, 0));
        reveal_with_fuel(all_parts, 2);
        reveal_with_fuel(all_levels, 2);
    }
    let mut i: usize = 0;
    while i < t.len()
        invariant
            i <= t@.len() <= MOST_CHARS + 1,
            text@.len() <= MOST_CHARS,
            all == read_off(t@),
            all == tokens(text@),
            scale.reads() == weight(all, i as nat),
            scale.reads().is_light(),
            forall|n: nat| n <= i ==> (#[trigger] weight(all, n)).is_light(),
            forall|k: int| 0 <= k < i ==> #[trigger] token_is_plain(all, k),
        decreases t@.len() - i,
    {
        let (small, leaf, items) = arrays_small(&t, i);
        if !small || !ascii(&t, i) || spells(&t[i], "binding_array") || !attribute_small(&t, i) {
            assert(!token_is_plain(all, i as int));
            return false;
        }
        assert(token_is_plain(all, i as int));
        let light = scale.add_token(&t, i, leaf, items);
        if !light {
            assert(!weight(all, (i + 1) as nat).is_light());
            return false;
        }
        i = i + 1;
    }
    true
}

/// A text has no more tokens than characters.
proof fn lemma_token_count(text: Seq<char>, n: nat)
    requires
        n <= text.len(),
    ensures
        ({
            let r = reading(text, n);
            let word = if r.word.len() > 0 {
                1int
            } else {
                0
            };
            match r.mode {
                Mode::Code => r.tokens.len() + word + (if r.prev == '/' {
                    1int
                } else {
                    0
                }) <= n,
                Mode::Line => r.tokens.len() + word <= n && r.prev == ' ',
                Mode::Block(_) => r.tokens.len() + word + 2 <= n,
            }
        }),
    decreases n,
{
    if n > 0 {
        lemma_token_count(text, (n - 1) as nat);
    }
}

} // verus!
